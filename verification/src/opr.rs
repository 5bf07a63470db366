//! The reconciliation stages: deduplicate, filter by product number, merge
//! rows of one id, merge matching ids, and flag residual contact collisions.

use crate::order::{item_no_model, merge_diff_model, merge_model, models, Order, OrderModel};
use vstd::prelude::*;

verus! {

// ---------------------------------------------------------------------------
// Contact identity
// ---------------------------------------------------------------------------
/// The contact rule on raw fields: when the mobile phone is non-empty it
/// alone decides; when both mobiles are empty the landline decides; a mobile
/// on one side only never matches.
pub open spec fn spec_phones_match(
    a_phone: Seq<char>,
    a_tele: Seq<char>,
    b_phone: Seq<char>,
    b_tele: Seq<char>,
) -> bool {
    if a_phone.len() == 0 {
        b_phone.len() == 0 && a_tele == b_tele
    } else {
        a_phone == b_phone
    }
}

/// Whether two orders belong to the same recipient contact.
pub open spec fn contacts_match(a: OrderModel, b: OrderModel) -> bool {
    spec_phones_match(a.phone, a.telephone, b.phone, b.telephone)
}

/// The canonical contact identity: the mobile phone when present, else the
/// landline.
pub enum ContactId {
    Mobile(Seq<char>),
    Landline(Seq<char>),
}

/// The canonical contact identity of a phone/landline pair.
pub open spec fn contact_id(phone: Seq<char>, telephone: Seq<char>) -> ContactId {
    if phone.len() > 0 {
        ContactId::Mobile(phone)
    } else {
        ContactId::Landline(telephone)
    }
}

/// The contact rule is symmetric.
pub proof fn lemma_contacts_match_symmetric(a: OrderModel, b: OrderModel)
    ensures
        contacts_match(a, b) == contacts_match(b, a),
{
}

/// The contact rule agrees with the canonical grouping key: two orders match
/// exactly when they carry the same contact identity. Grouping by the key
/// therefore never splits a matching pair, whatever structure does the
/// grouping; and the rule is transitive.
pub proof fn lemma_contacts_match_consistent(a: OrderModel, b: OrderModel)
    ensures
        contacts_match(a, b) <==> contact_id(a.phone, a.telephone) == contact_id(
            b.phone,
            b.telephone,
        ),
{
}

/// A pair of contact numbers, compared under the contact rule.
pub struct PhoneAndTele {
    /// Mobile phone; may be empty.
    pub phone: String,
    /// Landline phone; may be empty.
    pub telephone: String,
}

impl PhoneAndTele {
    /// Whether two contact pairs match under the contact rule.
    pub fn matches(&self, other: &PhoneAndTele) -> (r: bool)
        ensures
            r == spec_phones_match(self.phone@, self.telephone@, other.phone@, other.telephone@),
    {
        if !self.phone.as_str().is_empty() {
            self.phone == other.phone
        } else {
            other.phone.as_str().is_empty() && self.telephone == other.telephone
        }
    }
}

/// The reconciliation key of the cross-id merge: consignee, address, status,
/// and contact identity.
pub struct OrderKey {
    pub consignee: String,
    pub shipping_address: String,
    pub status: String,
    pub phones: PhoneAndTele,
}

impl OrderKey {
    /// Whether two keys match: the text fields equal and the contacts
    /// matching under the contact rule.
    pub fn matches(&self, other: &OrderKey) -> (r: bool)
        ensures
            r == (self.consignee@ == other.consignee@ && self.shipping_address@
                == other.shipping_address@ && self.status@ == other.status@ && spec_phones_match(
                self.phones.phone@,
                self.phones.telephone@,
                other.phones.phone@,
                other.phones.telephone@,
            )),
    {
        self.consignee == other.consignee && self.shipping_address == other.shipping_address
            && self.status == other.status && self.phones.matches(&other.phones)
    }
}

/// Whether two orders agree on the whole reconciliation key.
pub open spec fn keys_match(a: OrderModel, b: OrderModel) -> bool {
    a.consignee == b.consignee && a.shipping_address == b.shipping_address && a.status == b.status
        && contacts_match(a, b)
}

/// Whether two orders belong to the same recipient contact.
pub fn same_contact(a: &Order, b: &Order) -> (r: bool)
    ensures
        r == contacts_match(a@, b@),
{
    if !a.phone.as_str().is_empty() {
        a.phone == b.phone
    } else {
        b.phone.as_str().is_empty() && a.telephone == b.telephone
    }
}

fn same_key(a: &Order, b: &Order) -> (r: bool)
    ensures
        r == keys_match(a@, b@),
{
    a.consignee == b.consignee && a.shipping_address == b.shipping_address && a.status == b.status
        && same_contact(a, b)
}

// ---------------------------------------------------------------------------
// Sequence-of-orders helpers
// ---------------------------------------------------------------------------
proof fn lemma_models_push(s: Seq<Order>, o: Order)
    ensures
        models(s.push(o)) =~= models(s).push(o@),
{
}

proof fn lemma_models_drop_first(s: Seq<Order>)
    requires
        s.len() > 0,
    ensures
        models(s.drop_first()) =~= models(s).drop_first(),
{
}

/// The first position in `s` of an order with the given id, or -1.
pub open spec fn find_id(s: Seq<OrderModel>, id: Seq<char>) -> int
    decreases s.len(),
{
    if s.len() == 0 {
        -1
    } else if s[0].id == id {
        0
    } else {
        let r = find_id(s.drop_first(), id);
        if r < 0 {
            -1
        } else {
            r + 1
        }
    }
}

/// Whether some order in `s` carries the given id.
pub open spec fn has_id(s: Seq<OrderModel>, id: Seq<char>) -> bool {
    find_id(s, id) >= 0
}

/// The group of the first order in `s` with the given id.
pub open spec fn first_group(s: Seq<OrderModel>, id: Seq<char>) -> int {
    s[find_id(s, id)].group
}

proof fn lemma_find_id_props(s: Seq<OrderModel>, id: Seq<char>)
    ensures
        -1 <= find_id(s, id) < s.len(),
        find_id(s, id) >= 0 ==> s[find_id(s, id)].id == id,
        forall|j: int| 0 <= j < find_id(s, id) ==> s[j].id != id,
        find_id(s, id) == -1 ==> forall|j: int| 0 <= j < s.len() ==> s[j].id != id,
    decreases s.len(),
{
    if s.len() == 0 {
    } else if s[0].id == id {
    } else {
        let d = s.drop_first();
        lemma_find_id_props(d, id);
        if find_id(s, id) >= 0 {
            assert(d[find_id(d, id)] == s[find_id(d, id) + 1]);
            assert forall|j: int| 0 <= j < find_id(s, id) implies s[j].id != id by {
                if j > 0 {
                    assert(d[j - 1] == s[j]);
                }
            }
        } else {
            assert forall|j: int| 0 <= j < s.len() implies s[j].id != id by {
                if j > 0 {
                    assert(d[j - 1] == s[j]);
                }
            }
        }
    }
}

proof fn lemma_find_id_push(s: Seq<OrderModel>, o: OrderModel, id: Seq<char>)
    ensures
        find_id(s.push(o), id) == if has_id(s, id) {
            find_id(s, id)
        } else if o.id == id {
            s.len() as int
        } else {
            -1
        },
    decreases s.len(),
{
    let t = s.push(o);
    assert(t.len() == s.len() + 1);
    if s.len() == 0 {
        assert(t[0] == o);
        if o.id != id {
            assert(t.drop_first() =~= Seq::<OrderModel>::empty());
            assert(find_id(t.drop_first(), id) == -1);
        }
    } else {
        assert(t[0] == s[0]);
        if s[0].id != id {
            assert(t.drop_first() =~= s.drop_first().push(o));
            lemma_find_id_push(s.drop_first(), o, id);
        }
    }
}

// ---------------------------------------------------------------------------
// Deduplication
// ---------------------------------------------------------------------------
/// Whether a row survives deduplication, given the rows before it: its id
/// is unseen, or was first seen with the same group — a sibling line item of
/// one physical order, not a re-export.
pub open spec fn kept_by_dedup(prefix: Seq<OrderModel>, o: OrderModel) -> bool {
    !has_id(prefix, o.id) || first_group(prefix, o.id) == o.group
}

/// The deduplicated sequence: order-preserving, each row kept exactly when
/// [`kept_by_dedup`] holds of it and the rows before it.
pub open spec fn spec_remove_repeat(s: Seq<OrderModel>) -> Seq<OrderModel>
    decreases s.len(),
{
    if s.len() == 0 {
        Seq::empty()
    } else {
        spec_remove_repeat(s.drop_last()) + (if kept_by_dedup(s.drop_last(), s.last()) {
            seq![s.last()]
        } else {
            Seq::empty()
        })
    }
}

/// Deduplication keeps, for every id, its first occurrence and so the group
/// recorded for it.
proof fn lemma_dedup_preserves_id(s: Seq<OrderModel>, id: Seq<char>)
    ensures
        has_id(spec_remove_repeat(s), id) == has_id(s, id),
        has_id(s, id) ==> first_group(spec_remove_repeat(s), id) == first_group(s, id),
    decreases s.len(),
{
    if s.len() > 0 {
        let pre = s.drop_last();
        let o = s.last();
        lemma_dedup_preserves_id(pre, id);
        assert(s =~= pre.push(o));
        lemma_find_id_push(pre, o, id);
        if has_id(pre, id) {
            lemma_find_id_props(pre, id);
            assert(s[find_id(pre, id)] == pre[find_id(pre, id)]);
        }
        if kept_by_dedup(pre, o) {
            assert(spec_remove_repeat(s) =~= spec_remove_repeat(pre).push(o));
            lemma_find_id_push(spec_remove_repeat(pre), o, id);
            if has_id(spec_remove_repeat(pre), id) {
                lemma_find_id_props(spec_remove_repeat(pre), id);
                assert(spec_remove_repeat(s)[find_id(spec_remove_repeat(pre), id)]
                    == spec_remove_repeat(pre)[find_id(spec_remove_repeat(pre), id)]);
            } else if o.id == id {
                assert(spec_remove_repeat(s)[spec_remove_repeat(pre).len() as int] == o);
            }
        } else {
            assert(spec_remove_repeat(s) =~= spec_remove_repeat(pre));
            // the dropped row's id was already present, so `has_id` and the
            // first group of `s` agree with those of its prefix
            assert(has_id(pre, o.id));
        }
    }
}

/// Finds the first order in `v` with the given id, if any.
fn find_by_id(v: &Vec<Order>, id: &String) -> (r: Option<usize>)
    ensures
        match r {
            Some(j) => j < v@.len() && j as int == find_id(models(v@), id@),
            None => find_id(models(v@), id@) == -1,
        },
{
    let mut j: usize = 0;
    while j < v.len()
        invariant
            j <= v@.len(),
            forall|l: int| 0 <= l < j ==> models(v@)[l].id != id@,
        decreases v@.len() - j,
    {
        if v[j].id == *id {
            proof {
                assert(models(v@)[j as int].id == id@);
                lemma_find_id_props(models(v@), id@);
            }
            return Some(j);
        }
        proof {
            assert(models(v@)[j as int].id != id@);
        }
        j = j + 1;
    }
    proof {
        lemma_find_id_props(models(v@), id@);
        if find_id(models(v@), id@) >= 0 {
            assert(models(v@)[find_id(models(v@), id@)].id == id@);
            assert(false);
        }
    }
    None
}

/// Removes re-exported duplicate rows: a row whose id was already seen stays
/// only when its group equals the group first recorded for that id.
pub fn remove_repeat(orders: Vec<Order>) -> (res: Vec<Order>)
    ensures
        models(res@) == spec_remove_repeat(models(orders@)),
{
    let ghost all = models(orders@);
    let mut input = orders;
    let mut res: Vec<Order> = Vec::new();
    let ghost mut k: int = 0;
    while input.len() > 0
        invariant
            0 <= k <= all.len(),
            k == all.len() - input@.len(),
            models(input@) =~= all.skip(k),
            models(res@) == spec_remove_repeat(all.take(k)),
        decreases input@.len(),
    {
        let ghost in0 = input@;
        let ghost prefix = all.take(k);
        let o = input.remove(0);
        proof {
            assert(o@ == models(in0)[0]);
            assert(models(in0)[0] == all.skip(k)[0]);
            assert(all.skip(k)[0] == all[k]);
            lemma_models_drop_first(in0);
            assert(in0.remove(0) =~= in0.drop_first());
            assert(models(input@) =~= all.skip(k + 1));
        }
        let keep = match find_by_id(&res, &o.id) {
            Some(j) => res[j].group == o.group,
            None => true,
        };
        proof {
            lemma_dedup_preserves_id(prefix, o.id@);
            if has_id(models(res@), o.id@) {
                lemma_find_id_props(models(res@), o.id@);
                assert(models(res@)[find_id(models(res@), o.id@)].group == first_group(
                    models(res@),
                    o.id@,
                ));
            }
            assert(keep == kept_by_dedup(prefix, o@));
            assert(all.take(k + 1).drop_last() =~= prefix);
            assert(all.take(k + 1).last() == all[k]);
        }
        if keep {
            let ghost res0 = res@;
            res.push(o);
            proof {
                lemma_models_push(res0, o);
                assert(spec_remove_repeat(prefix) + seq![all[k]] =~= spec_remove_repeat(
                    prefix,
                ).push(all[k]));
                assert(models(res@) =~= spec_remove_repeat(all.take(k + 1)));
            }
        } else {
            proof {
                assert(spec_remove_repeat(prefix) + Seq::<OrderModel>::empty()
                    =~= spec_remove_repeat(prefix));
                assert(models(res@) =~= spec_remove_repeat(all.take(k + 1)));
            }
        }
        proof {
            k = k + 1;
        }
    }
    proof {
        assert(all.take(k) =~= all);
    }
    res
}

/// Deduplication is idempotent: run on its own output it keeps every row.
pub proof fn lemma_remove_repeat_idempotent(s: Seq<OrderModel>)
    ensures
        spec_remove_repeat(spec_remove_repeat(s)) == spec_remove_repeat(s),
    decreases s.len(),
{
    if s.len() > 0 {
        let pre = s.drop_last();
        let o = s.last();
        lemma_remove_repeat_idempotent(pre);
        if kept_by_dedup(pre, o) {
            assert(spec_remove_repeat(s) =~= spec_remove_repeat(pre).push(o));
            let t = spec_remove_repeat(pre).push(o);
            assert(t.drop_last() =~= spec_remove_repeat(pre));
            assert(t.last() == o);
            lemma_dedup_preserves_id(pre, o.id);
            assert(kept_by_dedup(spec_remove_repeat(pre), o));
            assert(spec_remove_repeat(t) =~= spec_remove_repeat(spec_remove_repeat(pre)).push(o));
            assert(spec_remove_repeat(spec_remove_repeat(s)) =~= spec_remove_repeat(s));
        } else {
            assert(spec_remove_repeat(s) =~= spec_remove_repeat(pre));
        }
    }
}

/// Two rows with one id: both are kept when their groups agree; the later
/// one is dropped when they differ. The rule reads only the pair itself, so
/// it holds whichever of the two comes first.
pub proof fn lemma_dedup_group_semantics(a: OrderModel, b: OrderModel)
    requires
        a.id == b.id,
    ensures
        a.group == b.group ==> spec_remove_repeat(seq![a, b]) == seq![a, b],
        a.group != b.group ==> spec_remove_repeat(seq![a, b]) == seq![a],
{
    let s = seq![a, b];
    let s1 = seq![a];
    assert(s1.drop_last() =~= Seq::<OrderModel>::empty());
    assert(s1.last() == a);
    assert(find_id(Seq::<OrderModel>::empty(), a.id) == -1);
    assert(spec_remove_repeat(Seq::<OrderModel>::empty()) =~= Seq::<OrderModel>::empty());
    assert(spec_remove_repeat(s1) =~= Seq::<OrderModel>::empty() + seq![a]);
    assert(spec_remove_repeat(s1) =~= s1);
    assert(s.drop_last() =~= s1);
    assert(s.last() == b);
    assert(find_id(s1, b.id) == 0);
    assert(first_group(s1, b.id) == a.group);
    if a.group == b.group {
        assert(spec_remove_repeat(s) =~= s1 + seq![b]);
        assert(s1 + seq![b] =~= seq![a, b]);
    } else {
        assert(spec_remove_repeat(s) =~= s1 + Seq::<OrderModel>::empty());
        assert(s1 + Seq::<OrderModel>::empty() =~= s1);
    }
}

// ---------------------------------------------------------------------------
// Item filter
// ---------------------------------------------------------------------------
/// What `str::to_lowercase` returns for the given characters; a function of
/// them alone.
pub uninterp spec fn lower_of(s: Seq<char>) -> Seq<char>;

/// Relies on str::to_lowercase: its result depends on the characters alone.
#[verifier::external_body]
fn lowercase(s: &str) -> (r: String)
    ensures
        r@ == lower_of(s@),
{
    s.to_lowercase()
}

/// Whether the item filter keeps a row: its product number equals the
/// target under case folding.
pub open spec fn kept_by_filter(o: OrderModel, target: Seq<char>) -> bool {
    lower_of(item_no_model(o.item_name)) == lower_of(target)
}

/// The rows the filter keeps, in order.
pub open spec fn spec_filter_items(s: Seq<OrderModel>, target: Seq<char>) -> Seq<OrderModel>
    decreases s.len(),
{
    if s.len() == 0 {
        Seq::empty()
    } else {
        spec_filter_items(s.drop_last(), target) + (if kept_by_filter(s.last(), target) {
            seq![s.last()]
        } else {
            Seq::empty()
        })
    }
}

/// Whether the filter rejects some row of `s` carrying the given id.
pub open spec fn spec_id_rejected(s: Seq<OrderModel>, target: Seq<char>, id: Seq<char>) -> bool {
    exists|j: int|
        0 <= j < s.len() && (#[trigger] s[j]).id == id && !kept_by_filter(s[j], target)
}

/// A surviving row, marked split when a row of its id was rejected.
pub open spec fn spec_mark_split(s: Seq<OrderModel>, target: Seq<char>, o: OrderModel) -> OrderModel {
    if spec_id_rejected(s, target, o.id) {
        OrderModel { splited: true, ..o }
    } else {
        o
    }
}

/// The item filter: the kept rows in order, each marked split exactly when
/// some row of its id was rejected.
pub open spec fn spec_remove_invalid(s: Seq<OrderModel>, target: Seq<char>) -> Seq<OrderModel> {
    spec_filter_items(s, target).map_values(|o: OrderModel| spec_mark_split(s, target, o))
}

proof fn lemma_id_rejected_push(s: Seq<OrderModel>, t: Seq<char>, o: OrderModel, id: Seq<char>)
    ensures
        spec_id_rejected(s.push(o), t, id) == (spec_id_rejected(s, t, id) || (o.id == id
            && !kept_by_filter(o, t))),
{
    let p = s.push(o);
    if spec_id_rejected(p, t, id) {
        let j = choose|j: int| 0 <= j < p.len() && (#[trigger] p[j]).id == id && !kept_by_filter(p[j], t);
        if j < s.len() {
            assert(s[j] == p[j]);
            assert(spec_id_rejected(s, t, id));
        } else {
            assert(p[j] == o);
        }
    }
    if spec_id_rejected(s, t, id) {
        let j = choose|j: int| 0 <= j < s.len() && (#[trigger] s[j]).id == id && !kept_by_filter(s[j], t);
        assert(p[j] == s[j]);
        assert(spec_id_rejected(p, t, id));
    }
    if o.id == id && !kept_by_filter(o, t) {
        assert(p[s.len() as int] == o);
        assert(spec_id_rejected(p, t, id));
    }
}

/// Whether some string of `v` spells `id`.
pub open spec fn str_in(v: Seq<String>, id: Seq<char>) -> bool {
    exists|j: int| 0 <= j < v.len() && (#[trigger] v[j])@ == id
}

proof fn lemma_str_in_push(v: Seq<String>, x: String, id: Seq<char>)
    ensures
        str_in(v.push(x), id) == (str_in(v, id) || x@ == id),
{
    let p = v.push(x);
    if str_in(p, id) {
        let j = choose|j: int| 0 <= j < p.len() && (#[trigger] p[j])@ == id;
        if j < v.len() {
            assert(v[j] == p[j]);
            assert(str_in(v, id));
        } else {
            assert(p[j] == x);
        }
    }
    if str_in(v, id) {
        let j = choose|j: int| 0 <= j < v.len() && (#[trigger] v[j])@ == id;
        assert(p[j] == v[j]);
        assert(str_in(p, id));
    }
    if x@ == id {
        assert(p[v.len() as int] == x);
        assert(str_in(p, id));
    }
}

/// Whether `v` holds a string spelling `id`.
fn contains_str(v: &Vec<String>, id: &String) -> (r: bool)
    ensures
        r == str_in(v@, id@),
{
    let mut j: usize = 0;
    while j < v.len()
        invariant
            j <= v@.len(),
            forall|l: int| 0 <= l < j ==> (#[trigger] v@[l])@ != id@,
        decreases v@.len() - j,
    {
        if v[j] == *id {
            assert(str_in(v@, id@));
            return true;
        }
        j = j + 1;
    }
    proof {
        if str_in(v@, id@) {
            let l = choose|l: int| 0 <= l < v@.len() && (#[trigger] v@[l])@ == id@;
            assert(false);
        }
    }
    false
}

/// Keeps only the rows whose product number equals `item_no` under case
/// folding, and marks each survivor split when some row of its id was
/// rejected: the survivor's totals no longer cover the whole original order.
pub fn remove_invalid_item(orders: Vec<Order>, item_no: &String) -> (res: Vec<Order>)
    ensures
        models(res@) == spec_remove_invalid(models(orders@), item_no@),
{
    let target = lowercase(item_no.as_str());
    let ghost all = models(orders@);
    let ghost t = item_no@;
    let mut input = orders;
    let mut kept: Vec<Order> = Vec::new();
    let mut rejected_ids: Vec<String> = Vec::new();
    let ghost mut k: int = 0;
    while input.len() > 0
        invariant
            0 <= k <= all.len(),
            k == all.len() - input@.len(),
            target@ == lower_of(t),
            models(input@) =~= all.skip(k),
            models(kept@) == spec_filter_items(all.take(k), t),
            forall|id: Seq<char>|
                #![trigger str_in(rejected_ids@, id)]
                #![trigger spec_id_rejected(all.take(k), t, id)]
                str_in(rejected_ids@, id) == spec_id_rejected(all.take(k), t, id),
        decreases input@.len(),
    {
        let ghost in0 = input@;
        let ghost prefix = all.take(k);
        let o = input.remove(0);
        proof {
            assert(o@ == models(in0)[0]);
            assert(models(in0)[0] == all.skip(k)[0]);
            assert(all.skip(k)[0] == all[k]);
            lemma_models_drop_first(in0);
            assert(in0.remove(0) =~= in0.drop_first());
            assert(models(input@) =~= all.skip(k + 1));
            assert(all.take(k + 1).drop_last() =~= prefix);
            assert(all.take(k + 1).last() == all[k]);
        }
        let no = o.item_no();
        let folded = lowercase(no.as_str());
        let keep = folded == target;
        proof {
            assert(keep == kept_by_filter(o@, t));
        }
        let ghost rej0 = rejected_ids@;
        if keep {
            let ghost kept0 = kept@;
            kept.push(o);
            proof {
                lemma_models_push(kept0, o);
                assert(spec_filter_items(prefix, t) + seq![all[k]] =~= spec_filter_items(
                    prefix,
                    t,
                ).push(all[k]));
                assert(models(kept@) =~= spec_filter_items(all.take(k + 1), t));
            }
        } else {
            rejected_ids.push(o.id.clone());
            proof {
                assert(spec_filter_items(prefix, t) + Seq::<OrderModel>::empty()
                    =~= spec_filter_items(prefix, t));
                assert(models(kept@) =~= spec_filter_items(all.take(k + 1), t));
            }
        }
        proof {
            assert forall|id: Seq<char>|
                #![trigger str_in(rejected_ids@, id)]
                #![trigger spec_id_rejected(all.take(k + 1), t, id)]
                str_in(rejected_ids@, id) == spec_id_rejected(all.take(k + 1), t, id) by {
                lemma_id_rejected_push(prefix, t, all[k], id);
                assert(all.take(k + 1) =~= prefix.push(all[k]));
                if !keep {
                    lemma_str_in_push(rej0, rejected_ids@.last(), id);
                    assert(rejected_ids@ =~= rej0.push(rejected_ids@.last()));
                }
            }
            k = k + 1;
        }
    }
    proof {
        assert(all.take(k) =~= all);
    }
    let ghost f = spec_filter_items(all, t);
    let mut res: Vec<Order> = Vec::new();
    let ghost mut i: int = 0;
    while kept.len() > 0
        invariant
            f == spec_filter_items(all, t),
            0 <= i <= f.len(),
            i == f.len() - kept@.len(),
            models(kept@) =~= f.skip(i),
            models(res@) =~= spec_remove_invalid(all, t).take(i),
            forall|id: Seq<char>|
                #![trigger str_in(rejected_ids@, id)]
                #![trigger spec_id_rejected(all, t, id)]
                str_in(rejected_ids@, id) == spec_id_rejected(all, t, id),
        decreases kept@.len(),
    {
        let ghost kept0 = kept@;
        let mut o = kept.remove(0);
        proof {
            assert(o@ == models(kept0)[0]);
            assert(models(kept0)[0] == f.skip(i)[0]);
            assert(f.skip(i)[0] == f[i]);
            lemma_models_drop_first(kept0);
            assert(kept0.remove(0) =~= kept0.drop_first());
            assert(models(kept@) =~= f.skip(i + 1));
        }
        if contains_str(&rejected_ids, &o.id) {
            o.splited = true;
        }
        proof {
            assert(o@ == spec_mark_split(all, t, f[i]));
        }
        let ghost res0 = res@;
        res.push(o);
        proof {
            lemma_models_push(res0, o);
            assert(spec_remove_invalid(all, t).len() == f.len());
            assert(spec_remove_invalid(all, t)[i] == spec_mark_split(all, t, f[i]));
            assert(models(res@) =~= spec_remove_invalid(all, t).take(i + 1));
            i = i + 1;
        }
    }
    proof {
        assert(spec_remove_invalid(all, t).take(i) =~= spec_remove_invalid(all, t));
    }
    res
}

// ---------------------------------------------------------------------------
// Sums over order sequences
// ---------------------------------------------------------------------------
/// The magnitude of a quantity.
pub open spec fn mag(v: int) -> int {
    if v >= 0 {
        v
    } else {
        -v
    }
}

/// The summed quantity of the orders of `s`.
pub open spec fn sum_counts(s: Seq<OrderModel>) -> int
    decreases s.len(),
{
    if s.len() == 0 {
        0
    } else {
        sum_counts(s.drop_last()) + s.last().total_count
    }
}

/// The summed total price of the orders of `s`.
pub open spec fn sum_prices(s: Seq<OrderModel>) -> int
    decreases s.len(),
{
    if s.len() == 0 {
        0
    } else {
        sum_prices(s.drop_last()) + s.last().total_price
    }
}

/// The summed magnitude of the quantities of `s`: a bound on any partial sum.
pub open spec fn abs_counts(s: Seq<OrderModel>) -> int
    decreases s.len(),
{
    if s.len() == 0 {
        0
    } else {
        abs_counts(s.drop_last()) + mag(s.last().total_count)
    }
}

/// The summed magnitude of the total prices of `s`.
pub open spec fn abs_prices(s: Seq<OrderModel>) -> int
    decreases s.len(),
{
    if s.len() == 0 {
        0
    } else {
        abs_prices(s.drop_last()) + mag(s.last().total_price)
    }
}

proof fn lemma_sums_drop_first(s: Seq<OrderModel>)
    requires
        s.len() > 0,
    ensures
        sum_counts(s) == s[0].total_count + sum_counts(s.drop_first()),
        sum_prices(s) == s[0].total_price + sum_prices(s.drop_first()),
        abs_counts(s) == mag(s[0].total_count) + abs_counts(s.drop_first()),
        abs_prices(s) == mag(s[0].total_price) + abs_prices(s.drop_first()),
    decreases s.len(),
{
    if s.len() == 1 {
        assert(s.drop_first() =~= Seq::<OrderModel>::empty());
        assert(s.drop_last() =~= Seq::<OrderModel>::empty());
        assert(s.last() == s[0]);
    } else {
        lemma_sums_drop_first(s.drop_last());
        assert(s.drop_last().drop_first() =~= s.drop_first().drop_last());
        assert(s.drop_first().last() == s.last());
        assert(s.drop_last()[0] == s[0]);
    }
}

proof fn lemma_abs_nonneg(s: Seq<OrderModel>)
    ensures
        abs_counts(s) >= 0,
        abs_prices(s) >= 0,
    decreases s.len(),
{
    if s.len() > 0 {
        lemma_abs_nonneg(s.drop_last());
    }
}

proof fn lemma_abs_element(s: Seq<OrderModel>, j: int)
    requires
        0 <= j < s.len(),
    ensures
        mag(s[j].total_count) <= abs_counts(s),
        mag(s[j].total_price) <= abs_prices(s),
    decreases s.len(),
{
    if j == s.len() - 1 {
        lemma_abs_nonneg(s.drop_last());
        assert(s.last() == s[j]);
    } else {
        assert(s.drop_last()[j] == s[j]);
        lemma_abs_element(s.drop_last(), j);
    }
}

proof fn lemma_sums_update(s: Seq<OrderModel>, j: int, x: OrderModel)
    requires
        0 <= j < s.len(),
    ensures
        sum_counts(s.update(j, x)) == sum_counts(s) - s[j].total_count + x.total_count,
        sum_prices(s.update(j, x)) == sum_prices(s) - s[j].total_price + x.total_price,
        abs_counts(s.update(j, x)) == abs_counts(s) - mag(s[j].total_count) + mag(x.total_count),
        abs_prices(s.update(j, x)) == abs_prices(s) - mag(s[j].total_price) + mag(x.total_price),
    decreases s.len(),
{
    if j == s.len() - 1 {
        assert(s.update(j, x).drop_last() =~= s.drop_last());
        assert(s.update(j, x).last() == x);
        assert(s.last() == s[j]);
    } else {
        assert(s.update(j, x).drop_last() =~= s.drop_last().update(j, x));
        assert(s.update(j, x).last() == s.last());
        assert(s.drop_last()[j] == s[j]);
        lemma_sums_update(s.drop_last(), j, x);
    }
}

/// The summed quantity of the rows of `s` carrying the given id.
pub open spec fn sum_counts_for_id(s: Seq<OrderModel>, id: Seq<char>) -> int
    decreases s.len(),
{
    if s.len() == 0 {
        0
    } else {
        sum_counts_for_id(s.drop_last(), id) + (if s.last().id == id {
            s.last().total_count
        } else {
            0
        })
    }
}

/// The summed total price of the rows of `s` carrying the given id.
pub open spec fn sum_prices_for_id(s: Seq<OrderModel>, id: Seq<char>) -> int
    decreases s.len(),
{
    if s.len() == 0 {
        0
    } else {
        sum_prices_for_id(s.drop_last(), id) + (if s.last().id == id {
            s.last().total_price
        } else {
            0
        })
    }
}

/// The sum, over the rows of `s` carrying the given id, of quantity times
/// unit price.
pub open spec fn sum_count_price_for_id(s: Seq<OrderModel>, id: Seq<char>) -> int
    decreases s.len(),
{
    if s.len() == 0 {
        0
    } else {
        sum_count_price_for_id(s.drop_last(), id) + (if s.last().id == id {
            s.last().total_count * s.last().price
        } else {
            0
        })
    }
}

proof fn lemma_sum_for_id_absent(s: Seq<OrderModel>, id: Seq<char>)
    requires
        forall|j: int| 0 <= j < s.len() ==> (#[trigger] s[j]).id != id,
    ensures
        sum_counts_for_id(s, id) == 0,
        sum_prices_for_id(s, id) == 0,
    decreases s.len(),
{
    if s.len() > 0 {
        assert forall|j: int| 0 <= j < s.len() - 1 implies (#[trigger] s.drop_last()[j]).id
            != id by {
            assert(s.drop_last()[j] == s[j]);
        }
        lemma_sum_for_id_absent(s.drop_last(), id);
        assert(s.last() == s[s.len() - 1]);
    }
}

/// On rows whose total price is quantity times unit price — as every decoded
/// row's is — the per-id price sum is the per-id sum of quantity times price.
pub proof fn lemma_price_sum_from_constituents(s: Seq<OrderModel>, id: Seq<char>)
    requires
        forall|i: int|
            0 <= i < s.len() ==> (#[trigger] s[i]).total_price == s[i].total_count * s[i].price,
    ensures
        sum_prices_for_id(s, id) == sum_count_price_for_id(s, id),
    decreases s.len(),
{
    if s.len() > 0 {
        assert forall|i: int|
            0 <= i < s.len() - 1 implies (#[trigger] s.drop_last()[i]).total_price
            == s.drop_last()[i].total_count * s.drop_last()[i].price by {
            assert(s.drop_last()[i] == s[i]);
        }
        lemma_price_sum_from_constituents(s.drop_last(), id);
        assert(s.last() == s[s.len() - 1]);
    }
}

// ---------------------------------------------------------------------------
// Same-id merge
// ---------------------------------------------------------------------------
/// One order per distinct id: the first row of an id starts its
/// representative, and every later row of that id is folded into it, in
/// input order. Representatives stand in first-occurrence order.
pub open spec fn spec_merge_same(s: Seq<OrderModel>) -> Seq<OrderModel>
    decreases s.len(),
{
    if s.len() == 0 {
        Seq::empty()
    } else {
        let pre = spec_merge_same(s.drop_last());
        let o = s.last();
        let j = find_id(pre, o.id);
        if j >= 0 {
            pre.update(j, merge_model(pre[j], o))
        } else {
            pre.push(o)
        }
    }
}

proof fn lemma_find_id_update(s: Seq<OrderModel>, j: int, x: OrderModel, id: Seq<char>)
    requires
        0 <= j < s.len(),
        x.id == s[j].id,
    ensures
        find_id(s.update(j, x), id) == find_id(s, id),
    decreases s.len(),
{
    let u = s.update(j, x);
    if j == 0 {
        assert(u[0] == x);
        if s[0].id != id {
            assert(u.drop_first() =~= s.drop_first());
        }
    } else {
        assert(u[0] == s[0]);
        if s[0].id != id {
            assert(u.drop_first() =~= s.drop_first().update(j - 1, x));
            assert(s.drop_first()[j - 1] == s[j]);
            lemma_find_id_update(s.drop_first(), j - 1, x, id);
        }
    }
}

/// The same-id merge keeps exactly the ids of its input.
proof fn lemma_merge_same_preserves_id(s: Seq<OrderModel>, id: Seq<char>)
    ensures
        has_id(spec_merge_same(s), id) == has_id(s, id),
    decreases s.len(),
{
    if s.len() > 0 {
        let t = s.drop_last();
        let o = s.last();
        let pre = spec_merge_same(t);
        lemma_merge_same_preserves_id(t, id);
        assert(s =~= t.push(o));
        lemma_find_id_push(t, o, id);
        let j0 = find_id(pre, o.id);
        lemma_find_id_props(pre, o.id);
        if j0 >= 0 {
            assert(merge_model(pre[j0], o).id == pre[j0].id);
            lemma_find_id_update(pre, j0, merge_model(pre[j0], o), id);
            if o.id == id {
                assert(has_id(pre, id));
            }
        } else {
            lemma_find_id_push(pre, o, id);
        }
    }
}

/// The representatives of the same-id merge carry pairwise distinct ids.
proof fn lemma_merge_same_distinct(s: Seq<OrderModel>)
    ensures
        forall|a: int, b: int|
            0 <= a < b < spec_merge_same(s).len() ==> (#[trigger] spec_merge_same(s)[a]).id != (
            #[trigger] spec_merge_same(s)[b]).id,
    decreases s.len(),
{
    if s.len() > 0 {
        let t = s.drop_last();
        let o = s.last();
        let pre = spec_merge_same(t);
        lemma_merge_same_distinct(t);
        let j0 = find_id(pre, o.id);
        lemma_find_id_props(pre, o.id);
        if j0 >= 0 {
            let res = pre.update(j0, merge_model(pre[j0], o));
            assert forall|a: int, b: int| 0 <= a < b < res.len() implies (#[trigger] res[a]).id != (
            #[trigger] res[b]).id by {
                assert(res[a] == if a == j0 {
                    merge_model(pre[j0], o)
                } else {
                    pre[a]
                });
                assert(res[b] == if b == j0 {
                    merge_model(pre[j0], o)
                } else {
                    pre[b]
                });
            }
        } else {
            let res = pre.push(o);
            assert forall|a: int, b: int| 0 <= a < b < res.len() implies (#[trigger] res[a]).id != (
            #[trigger] res[b]).id by {
                assert(res[a] == pre[a]);
                if b == pre.len() {
                    assert(res[b] == o);
                } else {
                    assert(res[b] == pre[b]);
                }
            }
        }
    }
}

/// Each representative of the same-id merge totals its constituents: its
/// quantity is the summed quantity of the input rows carrying its id, and
/// its total price their summed total price — sums that no merge order can
/// change.
pub proof fn lemma_merge_same_totals(s: Seq<OrderModel>)
    ensures
        forall|j: int|
            0 <= j < spec_merge_same(s).len() ==> {
                &&& (#[trigger] spec_merge_same(s)[j]).total_count == sum_counts_for_id(
                    s,
                    spec_merge_same(s)[j].id,
                )
                &&& spec_merge_same(s)[j].total_price == sum_prices_for_id(
                    s,
                    spec_merge_same(s)[j].id,
                )
            },
    decreases s.len(),
{
    if s.len() > 0 {
        let t = s.drop_last();
        let o = s.last();
        let pre = spec_merge_same(t);
        lemma_merge_same_totals(t);
        lemma_merge_same_distinct(t);
        lemma_merge_same_preserves_id(t, o.id);
        let j0 = find_id(pre, o.id);
        lemma_find_id_props(pre, o.id);
        if j0 >= 0 {
            let res = pre.update(j0, merge_model(pre[j0], o));
            assert forall|j: int| 0 <= j < res.len() implies {
                &&& (#[trigger] res[j]).total_count == sum_counts_for_id(s, res[j].id)
                &&& res[j].total_price == sum_prices_for_id(s, res[j].id)
            } by {
                if j == j0 {
                    assert(res[j] == merge_model(pre[j0], o));
                } else {
                    assert(res[j] == pre[j]);
                    assert(pre[j].id != o.id);
                }
            }
        } else {
            let res = pre.push(o);
            assert(!has_id(t, o.id));
            lemma_find_id_props(t, o.id);
            lemma_sum_for_id_absent(t, o.id);
            assert forall|j: int| 0 <= j < res.len() implies {
                &&& (#[trigger] res[j]).total_count == sum_counts_for_id(s, res[j].id)
                &&& res[j].total_price == sum_prices_for_id(s, res[j].id)
            } by {
                if j == pre.len() {
                    assert(res[j] == o);
                } else {
                    assert(res[j] == pre[j]);
                    assert(pre[j].id != o.id);
                }
            }
        }
    }
}

/// Folds the rows of each distinct id into one order: the first row of an id
/// becomes its representative, later rows merge into it in input order.
pub fn merge_same_order(orders: Vec<Order>) -> (res: Vec<Order>)
    requires
        abs_counts(models(orders@)) <= i64::MAX,
        abs_prices(models(orders@)) <= i64::MAX,
    ensures
        models(res@) == spec_merge_same(models(orders@)),
{
    let ghost all = models(orders@);
    let mut input = orders;
    let mut res: Vec<Order> = Vec::new();
    let ghost mut k: int = 0;
    while input.len() > 0
        invariant
            0 <= k <= all.len(),
            k == all.len() - input@.len(),
            models(input@) =~= all.skip(k),
            models(res@) == spec_merge_same(all.take(k)),
            abs_counts(models(res@)) + abs_counts(models(input@)) <= i64::MAX,
            abs_prices(models(res@)) + abs_prices(models(input@)) <= i64::MAX,
        decreases input@.len(),
    {
        let ghost in0 = input@;
        let ghost prefix = all.take(k);
        let ghost res0 = models(res@);
        let o = input.remove(0);
        proof {
            assert(o@ == models(in0)[0]);
            assert(models(in0)[0] == all.skip(k)[0]);
            assert(all.skip(k)[0] == all[k]);
            lemma_models_drop_first(in0);
            assert(in0.remove(0) =~= in0.drop_first());
            assert(models(input@) =~= all.skip(k + 1));
            lemma_sums_drop_first(models(in0));
            lemma_abs_nonneg(models(input@));
            lemma_abs_nonneg(res0);
            assert(all.take(k + 1).drop_last() =~= prefix);
            assert(all.take(k + 1).last() == all[k]);
        }
        match find_by_id(&res, &o.id) {
            Some(j) => {
                proof {
                    lemma_abs_element(res0, j as int);
                }
                let mut rep = res.remove(j);
                rep.merge(&o);
                res.insert(j, rep);
                proof {
                    assert(models(res@) =~= res0.update(j as int, merge_model(res0[j as int], o@)));
                    lemma_sums_update(res0, j as int, merge_model(res0[j as int], o@));
                    assert(models(res@) == spec_merge_same(all.take(k + 1)));
                }
            },
            None => {
                let ghost resv0 = res@;
                res.push(o);
                proof {
                    lemma_models_push(resv0, o);
                    assert(models(res@).drop_last() =~= res0);
                    assert(models(res@) == spec_merge_same(all.take(k + 1)));
                }
            },
        }
        proof {
            k = k + 1;
        }
    }
    proof {
        assert(all.take(k) =~= all);
    }
    res
}

// ---------------------------------------------------------------------------
// Cross-id merge
// ---------------------------------------------------------------------------
/// The key rule is symmetric, and transitive across a common middle order:
/// grouping by first match therefore puts each order in exactly one class.
pub proof fn lemma_keys_match_equiv(a: OrderModel, b: OrderModel, c: OrderModel)
    ensures
        keys_match(a, b) == keys_match(b, a),
        keys_match(a, b) && keys_match(b, c) ==> keys_match(a, c),
{
    lemma_contacts_match_consistent(a, b);
    lemma_contacts_match_consistent(b, c);
    lemma_contacts_match_consistent(a, c);
}

/// The fields the reconciliation key reads.
pub struct KeyFields {
    pub consignee: Seq<char>,
    pub shipping_address: Seq<char>,
    pub status: Seq<char>,
    pub phone: Seq<char>,
    pub telephone: Seq<char>,
}

/// The key fields of an order.
pub open spec fn key_of(o: OrderModel) -> KeyFields {
    KeyFields {
        consignee: o.consignee,
        shipping_address: o.shipping_address,
        status: o.status,
        phone: o.phone,
        telephone: o.telephone,
    }
}

/// Whether an order falls under the given key.
pub open spec fn key_matches(k: KeyFields, o: OrderModel) -> bool {
    k.consignee == o.consignee && k.shipping_address == o.shipping_address && k.status == o.status
        && spec_phones_match(k.phone, k.telephone, o.phone, o.telephone)
}

/// The first position in `s` of an order whose key matches `o`, or -1.
pub open spec fn find_key(s: Seq<OrderModel>, o: OrderModel) -> int
    decreases s.len(),
{
    if s.len() == 0 {
        -1
    } else if keys_match(s[0], o) {
        0
    } else {
        let r = find_key(s.drop_first(), o);
        if r < 0 {
            -1
        } else {
            r + 1
        }
    }
}

/// Whether some order in `s` matches the key of `o`.
pub open spec fn has_key(s: Seq<OrderModel>, o: OrderModel) -> bool {
    find_key(s, o) >= 0
}

proof fn lemma_find_key_props(s: Seq<OrderModel>, o: OrderModel)
    ensures
        -1 <= find_key(s, o) < s.len(),
        find_key(s, o) >= 0 ==> keys_match(s[find_key(s, o)], o),
        forall|j: int| 0 <= j < find_key(s, o) ==> !keys_match(s[j], o),
        find_key(s, o) == -1 ==> forall|j: int| 0 <= j < s.len() ==> !keys_match(s[j], o),
    decreases s.len(),
{
    if s.len() == 0 {
    } else if keys_match(s[0], o) {
    } else {
        let d = s.drop_first();
        lemma_find_key_props(d, o);
        if find_key(s, o) >= 0 {
            assert(d[find_key(d, o)] == s[find_key(d, o) + 1]);
            assert forall|j: int| 0 <= j < find_key(s, o) implies !keys_match(s[j], o) by {
                if j > 0 {
                    assert(d[j - 1] == s[j]);
                }
            }
        } else {
            assert forall|j: int| 0 <= j < s.len() implies !keys_match(s[j], o) by {
                if j > 0 {
                    assert(d[j - 1] == s[j]);
                }
            }
        }
    }
}

proof fn lemma_find_key_push(s: Seq<OrderModel>, x: OrderModel, o: OrderModel)
    ensures
        find_key(s.push(x), o) == if has_key(s, o) {
            find_key(s, o)
        } else if keys_match(x, o) {
            s.len() as int
        } else {
            -1
        },
    decreases s.len(),
{
    let t = s.push(x);
    if s.len() == 0 {
        assert(t[0] == x);
        if !keys_match(x, o) {
            assert(t.drop_first() =~= Seq::<OrderModel>::empty());
            assert(find_key(t.drop_first(), o) == -1);
        }
    } else {
        assert(t[0] == s[0]);
        if !keys_match(s[0], o) {
            assert(t.drop_first() =~= s.drop_first().push(x));
            lemma_find_key_push(s.drop_first(), x, o);
        }
    }
}

proof fn lemma_find_key_update(s: Seq<OrderModel>, j: int, x: OrderModel, o: OrderModel)
    requires
        0 <= j < s.len(),
        key_of(x) == key_of(s[j]),
    ensures
        find_key(s.update(j, x), o) == find_key(s, o),
    decreases s.len(),
{
    let u = s.update(j, x);
    assert(keys_match(x, o) == keys_match(s[j], o));
    if j == 0 {
        assert(u[0] == x);
        if !keys_match(s[0], o) {
            assert(u.drop_first() =~= s.drop_first());
        }
    } else {
        assert(u[0] == s[0]);
        if !keys_match(s[0], o) {
            assert(u.drop_first() =~= s.drop_first().update(j - 1, x));
            assert(s.drop_first()[j - 1] == s[j]);
            lemma_find_key_update(s.drop_first(), j - 1, x, o);
        }
    }
}

/// One order per reconciliation-key class: the first order of a class stays
/// as its representative, and every later order of the class is folded into
/// it in input order, its id recorded in the representative's audit trail.
pub open spec fn spec_merge_diff(s: Seq<OrderModel>) -> Seq<OrderModel>
    decreases s.len(),
{
    if s.len() == 0 {
        Seq::empty()
    } else {
        let pre = spec_merge_diff(s.drop_last());
        let o = s.last();
        let j = find_key(pre, o);
        if j >= 0 {
            pre.update(j, merge_diff_model(pre[j], o))
        } else {
            pre.push(o)
        }
    }
}

/// The cross-id merge keeps exactly the key classes of its input.
proof fn lemma_merge_diff_preserves_key(s: Seq<OrderModel>, o: OrderModel)
    ensures
        has_key(spec_merge_diff(s), o) == has_key(s, o),
    decreases s.len(),
{
    if s.len() > 0 {
        let t = s.drop_last();
        let b = s.last();
        let pre = spec_merge_diff(t);
        lemma_merge_diff_preserves_key(t, o);
        assert(s =~= t.push(b));
        lemma_find_key_push(t, b, o);
        let j0 = find_key(pre, b);
        lemma_find_key_props(pre, b);
        lemma_find_key_props(t, o);
        if j0 >= 0 {
            let merged = merge_diff_model(pre[j0], b);
            assert(key_of(merged) == key_of(pre[j0]));
            lemma_find_key_update(pre, j0, merged, o);
            if keys_match(b, o) {
                lemma_keys_match_equiv(pre[j0], b, o);
                lemma_find_key_props(pre, o);
                if find_key(pre, o) == -1 {
                    assert(!keys_match(pre[j0], o));
                    assert(false);
                }
            }
        } else {
            lemma_find_key_push(pre, b, o);
        }
    }
}

/// The representatives of the cross-id merge fall under pairwise different
/// keys.
proof fn lemma_merge_diff_distinct(s: Seq<OrderModel>)
    ensures
        forall|a: int, b: int|
            0 <= a < b < spec_merge_diff(s).len() ==> !keys_match(
                #[trigger] spec_merge_diff(s)[a],
                #[trigger] spec_merge_diff(s)[b],
            ),
    decreases s.len(),
{
    if s.len() > 0 {
        let t = s.drop_last();
        let o = s.last();
        let pre = spec_merge_diff(t);
        lemma_merge_diff_distinct(t);
        let j0 = find_key(pre, o);
        lemma_find_key_props(pre, o);
        if j0 >= 0 {
            let merged = merge_diff_model(pre[j0], o);
            let res = pre.update(j0, merged);
            assert(key_of(merged) == key_of(pre[j0]));
            assert forall|a: int, b: int| 0 <= a < b < res.len() implies !keys_match(
                #[trigger] res[a],
                #[trigger] res[b],
            ) by {
                assert(res[a] == if a == j0 {
                    merged
                } else {
                    pre[a]
                });
                assert(res[b] == if b == j0 {
                    merged
                } else {
                    pre[b]
                });
                assert(keys_match(merged, pre[b]) == keys_match(pre[j0], pre[b]));
                assert(keys_match(pre[a], merged) == keys_match(pre[a], pre[j0]));
            }
        } else {
            let res = pre.push(o);
            assert forall|a: int, b: int| 0 <= a < b < res.len() implies !keys_match(
                #[trigger] res[a],
                #[trigger] res[b],
            ) by {
                assert(res[a] == pre[a]);
                if b == pre.len() {
                    assert(res[b] == o);
                } else {
                    assert(res[b] == pre[b]);
                }
            }
        }
    }
}

/// The summed quantity of the rows of `s` falling under the given key.
pub open spec fn sum_counts_for_key(s: Seq<OrderModel>, k: KeyFields) -> int
    decreases s.len(),
{
    if s.len() == 0 {
        0
    } else {
        sum_counts_for_key(s.drop_last(), k) + (if key_matches(k, s.last()) {
            s.last().total_count
        } else {
            0
        })
    }
}

/// The summed total price of the rows of `s` falling under the given key.
pub open spec fn sum_prices_for_key(s: Seq<OrderModel>, k: KeyFields) -> int
    decreases s.len(),
{
    if s.len() == 0 {
        0
    } else {
        sum_prices_for_key(s.drop_last(), k) + (if key_matches(k, s.last()) {
            s.last().total_price
        } else {
            0
        })
    }
}

proof fn lemma_sum_for_key_absent(s: Seq<OrderModel>, k: KeyFields)
    requires
        forall|j: int| 0 <= j < s.len() ==> !key_matches(k, #[trigger] s[j]),
    ensures
        sum_counts_for_key(s, k) == 0,
        sum_prices_for_key(s, k) == 0,
    decreases s.len(),
{
    if s.len() > 0 {
        assert forall|j: int| 0 <= j < s.len() - 1 implies !key_matches(
            k,
            #[trigger] s.drop_last()[j],
        ) by {
            assert(s.drop_last()[j] == s[j]);
        }
        lemma_sum_for_key_absent(s.drop_last(), k);
        assert(s.last() == s[s.len() - 1]);
    }
}

/// Each representative of the cross-id merge totals its constituents: its
/// quantity is the summed quantity of the input orders falling under its
/// key, and its total price their summed total price — sums that no merge
/// order can change.
pub proof fn lemma_merge_diff_totals(s: Seq<OrderModel>)
    ensures
        forall|j: int|
            0 <= j < spec_merge_diff(s).len() ==> {
                &&& (#[trigger] spec_merge_diff(s)[j]).total_count == sum_counts_for_key(
                    s,
                    key_of(spec_merge_diff(s)[j]),
                )
                &&& spec_merge_diff(s)[j].total_price == sum_prices_for_key(
                    s,
                    key_of(spec_merge_diff(s)[j]),
                )
            },
    decreases s.len(),
{
    if s.len() > 0 {
        let t = s.drop_last();
        let o = s.last();
        let pre = spec_merge_diff(t);
        lemma_merge_diff_totals(t);
        lemma_merge_diff_distinct(t);
        lemma_merge_diff_preserves_key(t, o);
        let j0 = find_key(pre, o);
        lemma_find_key_props(pre, o);
        if j0 >= 0 {
            let merged = merge_diff_model(pre[j0], o);
            let res = pre.update(j0, merged);
            assert(key_of(merged) == key_of(pre[j0]));
            assert forall|j: int| 0 <= j < res.len() implies {
                &&& (#[trigger] res[j]).total_count == sum_counts_for_key(s, key_of(res[j]))
                &&& res[j].total_price == sum_prices_for_key(s, key_of(res[j]))
            } by {
                if j == j0 {
                    assert(res[j] == merged);
                    assert(key_matches(key_of(pre[j0]), o));
                } else {
                    assert(res[j] == pre[j]);
                    if key_matches(key_of(pre[j]), o) {
                        lemma_keys_match_equiv(pre[j], o, pre[j0]);
                        lemma_keys_match_equiv(pre[j0], o, pre[j]);
                        lemma_keys_match_equiv(pre[j], pre[j0], o);
                        assert(keys_match(pre[j], o));
                        assert(keys_match(pre[j0], o));
                        lemma_keys_match_equiv(o, pre[j0], o);
                        assert(keys_match(o, pre[j0]));
                        assert(keys_match(pre[j], pre[j0]));
                        if j < j0 {
                            assert(!keys_match(pre[j], pre[j0]));
                        } else {
                            lemma_keys_match_equiv(pre[j0], pre[j], o);
                            lemma_keys_match_equiv(pre[j], pre[j0], pre[j]);
                            assert(!keys_match(pre[j0], pre[j]));
                        }
                        assert(false);
                    }
                }
            }
        } else {
            let res = pre.push(o);
            assert(!has_key(t, o));
            lemma_find_key_props(t, o);
            assert forall|j: int| 0 <= j < t.len() implies !key_matches(
                key_of(o),
                #[trigger] t[j],
            ) by {
                lemma_keys_match_equiv(t[j], o, o);
                assert(!keys_match(t[j], o));
            }
            lemma_sum_for_key_absent(t, key_of(o));
            assert forall|j: int| 0 <= j < res.len() implies {
                &&& (#[trigger] res[j]).total_count == sum_counts_for_key(s, key_of(res[j]))
                &&& res[j].total_price == sum_prices_for_key(s, key_of(res[j]))
            } by {
                if j == pre.len() {
                    assert(res[j] == o);
                    assert(key_matches(key_of(o), o));
                } else {
                    assert(res[j] == pre[j]);
                    if key_matches(key_of(pre[j]), o) {
                        assert(keys_match(pre[j], o));
                        assert(false);
                    }
                }
            }
        }
    }
}

/// Finds the first order in `v` whose key matches `o`, if any.
fn find_by_key(v: &Vec<Order>, o: &Order) -> (r: Option<usize>)
    ensures
        match r {
            Some(j) => j < v@.len() && j as int == find_key(models(v@), o@),
            None => find_key(models(v@), o@) == -1,
        },
{
    let mut j: usize = 0;
    while j < v.len()
        invariant
            j <= v@.len(),
            forall|l: int| 0 <= l < j ==> !keys_match(models(v@)[l], o@),
        decreases v@.len() - j,
    {
        if same_key(&v[j], o) {
            proof {
                assert(keys_match(models(v@)[j as int], o@));
                lemma_find_key_props(models(v@), o@);
            }
            return Some(j);
        }
        proof {
            assert(!keys_match(models(v@)[j as int], o@));
        }
        j = j + 1;
    }
    proof {
        lemma_find_key_props(models(v@), o@);
        if find_key(models(v@), o@) >= 0 {
            assert(keys_match(models(v@)[find_key(models(v@), o@)], o@));
            assert(false);
        }
    }
    None
}

/// Folds distinct order ids that share consignee, address, status and
/// contact into one shippable order; each absorbed order's id is recorded in
/// the representative's audit trail.
pub fn merge_diff_order(orders: Vec<Order>) -> (res: Vec<Order>)
    requires
        abs_counts(models(orders@)) <= i64::MAX,
        abs_prices(models(orders@)) <= i64::MAX,
    ensures
        models(res@) == spec_merge_diff(models(orders@)),
{
    let ghost all = models(orders@);
    let mut input = orders;
    let mut res: Vec<Order> = Vec::new();
    let ghost mut k: int = 0;
    while input.len() > 0
        invariant
            0 <= k <= all.len(),
            k == all.len() - input@.len(),
            models(input@) =~= all.skip(k),
            models(res@) == spec_merge_diff(all.take(k)),
            abs_counts(models(res@)) + abs_counts(models(input@)) <= i64::MAX,
            abs_prices(models(res@)) + abs_prices(models(input@)) <= i64::MAX,
        decreases input@.len(),
    {
        let ghost in0 = input@;
        let ghost prefix = all.take(k);
        let ghost res0 = models(res@);
        let o = input.remove(0);
        proof {
            assert(o@ == models(in0)[0]);
            assert(models(in0)[0] == all.skip(k)[0]);
            assert(all.skip(k)[0] == all[k]);
            lemma_models_drop_first(in0);
            assert(in0.remove(0) =~= in0.drop_first());
            assert(models(input@) =~= all.skip(k + 1));
            lemma_sums_drop_first(models(in0));
            lemma_abs_nonneg(models(input@));
            lemma_abs_nonneg(res0);
            assert(all.take(k + 1).drop_last() =~= prefix);
            assert(all.take(k + 1).last() == all[k]);
        }
        match find_by_key(&res, &o) {
            Some(j) => {
                proof {
                    lemma_abs_element(res0, j as int);
                }
                let mut rep = res.remove(j);
                rep.merge_diff(&o);
                res.insert(j, rep);
                proof {
                    assert(models(res@) =~= res0.update(
                        j as int,
                        merge_diff_model(res0[j as int], o@),
                    ));
                    lemma_sums_update(res0, j as int, merge_diff_model(res0[j as int], o@));
                    assert(models(res@) == spec_merge_diff(all.take(k + 1)));
                }
            },
            None => {
                let ghost resv0 = res@;
                res.push(o);
                proof {
                    lemma_models_push(resv0, o);
                    assert(models(res@).drop_last() =~= res0);
                    assert(models(res@) == spec_merge_diff(all.take(k + 1)));
                }
            },
        }
        proof {
            k = k + 1;
        }
    }
    proof {
        assert(all.take(k) =~= all);
    }
    res
}

// ---------------------------------------------------------------------------
// Contact collision flag
// ---------------------------------------------------------------------------
/// How many orders of `s` the given contact pair matches.
pub open spec fn count_contact_matches(s: Seq<OrderModel>, phone: Seq<char>, tele: Seq<char>) -> int
    decreases s.len(),
{
    if s.len() == 0 {
        0
    } else {
        count_contact_matches(s.drop_last(), phone, tele) + (if spec_phones_match(
            s.last().phone,
            s.last().telephone,
            phone,
            tele,
        ) {
            1int
        } else {
            0int
        })
    }
}

/// The collision pass: every order keeps its fields, and is flagged when at
/// least two orders of the sequence — itself and some other — share its
/// contact.
pub open spec fn spec_mark_same_phone(s: Seq<OrderModel>) -> Seq<OrderModel> {
    s.map_values(
        |o: OrderModel|
            OrderModel {
                has_same_phone_order: o.has_same_phone_order || count_contact_matches(
                    s,
                    o.phone,
                    o.telephone,
                ) >= 2,
                ..o
            },
    )
}

proof fn lemma_count_bounds(s: Seq<OrderModel>, phone: Seq<char>, tele: Seq<char>)
    ensures
        0 <= count_contact_matches(s, phone, tele) <= s.len(),
    decreases s.len(),
{
    if s.len() > 0 {
        lemma_count_bounds(s.drop_last(), phone, tele);
    }
}

proof fn lemma_count_concat(s1: Seq<OrderModel>, s2: Seq<OrderModel>, phone: Seq<char>, tele: Seq<char>)
    ensures
        count_contact_matches(s1 + s2, phone, tele) == count_contact_matches(s1, phone, tele)
            + count_contact_matches(s2, phone, tele),
    decreases s2.len(),
{
    if s2.len() == 0 {
        assert(s1 + s2 =~= s1);
    } else {
        assert((s1 + s2).drop_last() =~= s1 + s2.drop_last());
        assert((s1 + s2).last() == s2.last());
        lemma_count_concat(s1, s2.drop_last(), phone, tele);
    }
}

/// Counting contact matches reads only the contact fields: two pointwise
/// contact-equal sequences count alike.
proof fn lemma_count_same_contacts(
    s1: Seq<OrderModel>,
    s2: Seq<OrderModel>,
    phone: Seq<char>,
    tele: Seq<char>,
)
    requires
        s1.len() == s2.len(),
        forall|i: int|
            0 <= i < s1.len() ==> (#[trigger] s1[i]).phone == s2[i].phone && s1[i].telephone
                == s2[i].telephone,
    ensures
        count_contact_matches(s1, phone, tele) == count_contact_matches(s2, phone, tele),
    decreases s1.len(),
{
    if s1.len() > 0 {
        assert forall|i: int|
            0 <= i < s1.len() - 1 implies (#[trigger] s1.drop_last()[i]).phone
            == s2.drop_last()[i].phone && s1.drop_last()[i].telephone
            == s2.drop_last()[i].telephone by {
            assert(s1.drop_last()[i] == s1[i]);
            assert(s2.drop_last()[i] == s2[i]);
        }
        lemma_count_same_contacts(s1.drop_last(), s2.drop_last(), phone, tele);
        assert(s1.last() == s1[s1.len() - 1]);
        assert(s2.last() == s2[s1.len() - 1]);
    }
}

/// How many orders of `v` share the contact of `o`.
fn count_matches(v: &Vec<Order>, o: &Order) -> (c: usize)
    ensures
        c as int == count_contact_matches(models(v@), o@.phone, o@.telephone),
        c <= v@.len(),
{
    let mut c: usize = 0;
    let mut i: usize = 0;
    while i < v.len()
        invariant
            i <= v@.len(),
            c <= i,
            c as int == count_contact_matches(
                models(v@).take(i as int),
                o@.phone,
                o@.telephone,
            ),
        decreases v@.len() - i,
    {
        proof {
            assert(models(v@).take(i + 1).drop_last() =~= models(v@).take(i as int));
            assert(models(v@).take(i + 1).last() == models(v@)[i as int]);
        }
        if same_contact(&v[i], o) {
            c = c + 1;
        }
        i = i + 1;
    }
    proof {
        assert(models(v@).take(v@.len() as int) =~= models(v@));
    }
    c
}

/// Flags every order that, after all merges, still shares its contact with
/// some other surviving order: a residual ambiguity left for manual review.
pub fn mark_same_phone_order(orders: &mut Vec<Order>)
    ensures
        models(final(orders)@) == spec_mark_same_phone(models(old(orders)@)),
{
    let ghost all = models(orders@);
    let mut res: Vec<Order> = Vec::new();
    let ghost mut k: int = 0;
    while orders.len() > 0
        invariant
            0 <= k <= all.len(),
            k == all.len() - orders@.len(),
            models(orders@) =~= all.skip(k),
            models(res@) =~= spec_mark_same_phone(all).take(k),
        decreases orders@.len(),
    {
        let ghost in0 = orders@;
        let mut o = orders.remove(0);
        proof {
            assert(o@ == models(in0)[0]);
            assert(models(in0)[0] == all.skip(k)[0]);
            assert(all.skip(k)[0] == all[k]);
            lemma_models_drop_first(in0);
            assert(in0.remove(0) =~= in0.drop_first());
            assert(models(orders@) =~= all.skip(k + 1));
        }
        let ghost probe = all[k];
        let before = count_matches(&res, &o);
        let after = count_matches(orders, &o);
        proof {
            assert(spec_mark_same_phone(all).len() == all.len());
            assert forall|i: int|
                0 <= i < k implies (#[trigger] models(res@)[i]).phone == all.take(k)[i].phone
                && models(res@)[i].telephone == all.take(k)[i].telephone by {
                assert(models(res@)[i] == spec_mark_same_phone(all).take(k)[i]);
                assert(spec_mark_same_phone(all)[i] == OrderModel {
                    has_same_phone_order: all[i].has_same_phone_order || count_contact_matches(
                        all,
                        all[i].phone,
                        all[i].telephone,
                    ) >= 2,
                    ..all[i]
                });
            }
            lemma_count_same_contacts(models(res@), all.take(k), probe.phone, probe.telephone);
            lemma_count_concat(all.take(k + 1), all.skip(k + 1), probe.phone, probe.telephone);
            assert(all.take(k + 1) + all.skip(k + 1) =~= all);
            assert(all.take(k + 1).drop_last() =~= all.take(k));
            assert(all.take(k + 1).last() == all[k]);
            assert(count_contact_matches(all, probe.phone, probe.telephone) == before + 1 + after);
            lemma_count_bounds(models(res@), probe.phone, probe.telephone);
            lemma_count_bounds(models(orders@), probe.phone, probe.telephone);
        }
        if before >= 1 || after >= 1 {
            o.has_same_phone_order = true;
        }
        proof {
            assert(o@ == spec_mark_same_phone(all)[k]);
        }
        let ghost res0 = res@;
        res.push(o);
        proof {
            lemma_models_push(res0, o);
            assert(models(res@) =~= spec_mark_same_phone(all).take(k + 1));
            k = k + 1;
        }
    }
    proof {
        assert(spec_mark_same_phone(all).take(k) =~= spec_mark_same_phone(all));
    }
    *orders = res;
}

// ---------------------------------------------------------------------------
// The pipeline
// ---------------------------------------------------------------------------
proof fn lemma_sums_concat(s1: Seq<OrderModel>, s2: Seq<OrderModel>)
    ensures
        sum_counts(s1 + s2) == sum_counts(s1) + sum_counts(s2),
        sum_prices(s1 + s2) == sum_prices(s1) + sum_prices(s2),
        abs_counts(s1 + s2) == abs_counts(s1) + abs_counts(s2),
        abs_prices(s1 + s2) == abs_prices(s1) + abs_prices(s2),
    decreases s2.len(),
{
    if s2.len() == 0 {
        assert(s1 + s2 =~= s1);
    } else {
        assert((s1 + s2).drop_last() =~= s1 + s2.drop_last());
        assert((s1 + s2).last() == s2.last());
        lemma_sums_concat(s1, s2.drop_last());
    }
}

/// Sequences with pointwise equal totals sum alike.
proof fn lemma_sums_same_totals(s1: Seq<OrderModel>, s2: Seq<OrderModel>)
    requires
        s1.len() == s2.len(),
        forall|i: int|
            0 <= i < s1.len() ==> (#[trigger] s1[i]).total_count == s2[i].total_count
                && s1[i].total_price == s2[i].total_price,
    ensures
        sum_counts(s1) == sum_counts(s2),
        sum_prices(s1) == sum_prices(s2),
        abs_counts(s1) == abs_counts(s2),
        abs_prices(s1) == abs_prices(s2),
    decreases s1.len(),
{
    if s1.len() > 0 {
        assert forall|i: int|
            0 <= i < s1.len() - 1 implies (#[trigger] s1.drop_last()[i]).total_count
            == s2.drop_last()[i].total_count && s1.drop_last()[i].total_price
            == s2.drop_last()[i].total_price by {
            assert(s1.drop_last()[i] == s1[i]);
            assert(s2.drop_last()[i] == s2[i]);
        }
        lemma_sums_same_totals(s1.drop_last(), s2.drop_last());
        assert(s1.last() == s1[s1.len() - 1]);
        assert(s2.last() == s2[s1.len() - 1]);
    }
}

proof fn lemma_dedup_abs(s: Seq<OrderModel>)
    ensures
        abs_counts(spec_remove_repeat(s)) <= abs_counts(s),
        abs_prices(spec_remove_repeat(s)) <= abs_prices(s),
    decreases s.len(),
{
    if s.len() > 0 {
        let pre = s.drop_last();
        let o = s.last();
        lemma_dedup_abs(pre);
        if kept_by_dedup(pre, o) {
            assert((spec_remove_repeat(pre) + seq![o]).drop_last() =~= spec_remove_repeat(pre));
            assert((spec_remove_repeat(pre) + seq![o]).last() == o);
        } else {
            assert(spec_remove_repeat(pre) + Seq::<OrderModel>::empty() =~= spec_remove_repeat(
                pre,
            ));
        }
    }
}

proof fn lemma_filter_abs(s: Seq<OrderModel>, t: Seq<char>)
    ensures
        abs_counts(spec_filter_items(s, t)) <= abs_counts(s),
        abs_prices(spec_filter_items(s, t)) <= abs_prices(s),
    decreases s.len(),
{
    if s.len() > 0 {
        let pre = s.drop_last();
        let o = s.last();
        lemma_filter_abs(pre, t);
        if kept_by_filter(o, t) {
            assert((spec_filter_items(pre, t) + seq![o]).drop_last() =~= spec_filter_items(
                pre,
                t,
            ));
            assert((spec_filter_items(pre, t) + seq![o]).last() == o);
        } else {
            assert(spec_filter_items(pre, t) + Seq::<OrderModel>::empty() =~= spec_filter_items(
                pre,
                t,
            ));
        }
    }
}

proof fn lemma_remove_invalid_abs(s: Seq<OrderModel>, t: Seq<char>)
    ensures
        abs_counts(spec_remove_invalid(s, t)) <= abs_counts(s),
        abs_prices(spec_remove_invalid(s, t)) <= abs_prices(s),
{
    let f = spec_filter_items(s, t);
    let r = spec_remove_invalid(s, t);
    assert(r.len() == f.len());
    assert forall|i: int|
        0 <= i < r.len() implies (#[trigger] r[i]).total_count == f[i].total_count
        && r[i].total_price == f[i].total_price by {
        assert(r[i] == spec_mark_split(s, t, f[i]));
    }
    lemma_sums_same_totals(r, f);
    lemma_filter_abs(s, t);
}

proof fn lemma_merge_same_abs(s: Seq<OrderModel>)
    ensures
        abs_counts(spec_merge_same(s)) <= abs_counts(s),
        abs_prices(spec_merge_same(s)) <= abs_prices(s),
    decreases s.len(),
{
    if s.len() > 0 {
        let t = s.drop_last();
        let o = s.last();
        let pre = spec_merge_same(t);
        lemma_merge_same_abs(t);
        let j0 = find_id(pre, o.id);
        lemma_find_id_props(pre, o.id);
        if j0 >= 0 {
            lemma_sums_update(pre, j0, merge_model(pre[j0], o));
        } else {
            assert(pre.push(o).drop_last() =~= pre);
        }
    }
}

proof fn lemma_merge_diff_abs(s: Seq<OrderModel>)
    ensures
        abs_counts(spec_merge_diff(s)) <= abs_counts(s),
        abs_prices(spec_merge_diff(s)) <= abs_prices(s),
    decreases s.len(),
{
    if s.len() > 0 {
        let t = s.drop_last();
        let o = s.last();
        let pre = spec_merge_diff(t);
        lemma_merge_diff_abs(t);
        let j0 = find_key(pre, o);
        lemma_find_key_props(pre, o);
        if j0 >= 0 {
            lemma_sums_update(pre, j0, merge_diff_model(pre[j0], o));
        } else {
            assert(pre.push(o).drop_last() =~= pre);
        }
    }
}

proof fn lemma_mark_sums(s: Seq<OrderModel>)
    ensures
        sum_counts(spec_mark_same_phone(s)) == sum_counts(s),
        sum_prices(spec_mark_same_phone(s)) == sum_prices(s),
        abs_counts(spec_mark_same_phone(s)) == abs_counts(s),
        abs_prices(spec_mark_same_phone(s)) == abs_prices(s),
{
    let r = spec_mark_same_phone(s);
    assert(r.len() == s.len());
    lemma_sums_same_totals(r, s);
}

/// The whole reconciliation pipeline on decoded rows: deduplicate, filter by
/// product number, merge rows of one id, merge matching ids, and flag
/// residual contact collisions.
pub open spec fn spec_pipeline(s: Seq<OrderModel>, target: Seq<char>) -> Seq<OrderModel> {
    spec_mark_same_phone(
        spec_merge_diff(spec_merge_same(spec_remove_invalid(spec_remove_repeat(s), target))),
    )
}

/// Runs the reconciliation stages in their fixed order on decoded rows.
pub fn process(orders: Vec<Order>, item_no: &String) -> (res: Vec<Order>)
    requires
        abs_counts(models(orders@)) <= i64::MAX,
        abs_prices(models(orders@)) <= i64::MAX,
    ensures
        models(res@) == spec_pipeline(models(orders@), item_no@),
        abs_counts(models(res@)) <= abs_counts(models(orders@)),
        abs_prices(models(res@)) <= abs_prices(models(orders@)),
{
    let ghost s0 = models(orders@);
    let orders = remove_repeat(orders);
    let ghost s1 = models(orders@);
    proof {
        lemma_dedup_abs(s0);
    }
    let orders = remove_invalid_item(orders, item_no);
    let ghost s2 = models(orders@);
    proof {
        lemma_remove_invalid_abs(s1, item_no@);
    }
    let orders = merge_same_order(orders);
    let ghost s3 = models(orders@);
    proof {
        lemma_merge_same_abs(s2);
    }
    let mut orders = merge_diff_order(orders);
    let ghost s4 = models(orders@);
    proof {
        lemma_merge_diff_abs(s3);
    }
    mark_same_phone_order(&mut orders);
    proof {
        lemma_mark_sums(s4);
    }
    orders
}

/// The summed quantity of the orders, as written into the output file name.
pub fn total_quantity(orders: &Vec<Order>) -> (n: i64)
    requires
        abs_counts(models(orders@)) <= i64::MAX,
    ensures
        n as int == sum_counts(models(orders@)),
{
    let ghost all = models(orders@);
    let mut n: i64 = 0;
    let mut i: usize = 0;
    while i < orders.len()
        invariant
            i <= all.len(),
            all == models(orders@),
            abs_counts(all) <= i64::MAX,
            n as int == sum_counts(all.take(i as int)),
            mag(n as int) <= abs_counts(all.take(i as int)),
        decreases all.len() - i,
    {
        proof {
            assert(all.take(i + 1).drop_last() =~= all.take(i as int));
            assert(all.take(i + 1).last() == all[i as int]);
            lemma_sums_concat(all.take(i + 1), all.skip(i + 1));
            assert(all.take(i + 1) + all.skip(i + 1) =~= all);
            lemma_abs_nonneg(all.skip(i + 1));
            assert(models(orders@)[i as int] == orders@[i as int]@);
        }
        n = n + orders[i].total_count;
        i = i + 1;
    }
    proof {
        assert(all.take(i as int) =~= all);
    }
    n
}


} // verus!
