//! The order record: decoding from a spreadsheet row, merge operations, and
//! the output projection.

use crate::cell::{get_num, get_string, spec_get_num, spec_get_string, Cell, TitleIndex};
use crate::numfmt::{
    dec_digits, digit_char, i64_to_dec, money_digits, money_to_dec, push_char, signed_dec_digits,
};
use vstd::prelude::*;
use vstd::string::*;

verus! {

/// The largest magnitude (in hundredths) that a numeric cell may carry.
///
/// Quantity and unit price are multiplied on decoding; this bound keeps the
/// product within `i64`.
pub const CELL_LIMIT: i64 = 1_000_000_000;

/// One shippable order: one raw row after decoding, possibly many rows after
/// the merge stages. Money fields (`total_price`, `pay_amount`, `price`) are
/// in hundredths of the currency unit.
pub struct Order {
    /// Order identifier; not unique before deduplication and merging.
    pub id: String,
    /// Accumulated quantity times unit price, in hundredths.
    pub total_price: i64,
    /// Paid amount as reported, in hundredths; carried forward, never recomputed.
    pub pay_amount: i64,
    /// Order status text.
    pub status: String,
    /// Consignee name.
    pub consignee: String,
    /// Shipping address.
    pub shipping_address: String,
    /// Mobile phone; may be empty.
    pub phone: String,
    /// Landline phone; may be empty.
    pub telephone: String,
    /// Product title and quantity; newline-joined across merged line items.
    pub item_name: String,
    /// Quantity, summed across merged line items.
    pub total_count: i64,
    /// Unit price in hundredths.
    pub price: i64,
    /// Buyer note; newline-joined on merge when both sides have one.
    pub leave_msg: String,
    /// 1-based index of the row that introduced this order's id.
    pub group: u32,
    /// Ids of the orders folded into this one by the cross-id merge.
    pub merged: Vec<String>,
    /// Whether the item filter removed a sibling line item of this order.
    pub splited: bool,
    /// Whether, after all merges, another surviving order shares this
    /// order's contact identity.
    pub has_same_phone_order: bool,
}

/// The mathematical model of an [`Order`].
#[verifier::ext_equal]
pub struct OrderModel {
    pub id: Seq<char>,
    pub total_price: int,
    pub pay_amount: int,
    pub status: Seq<char>,
    pub consignee: Seq<char>,
    pub shipping_address: Seq<char>,
    pub phone: Seq<char>,
    pub telephone: Seq<char>,
    pub item_name: Seq<char>,
    pub total_count: int,
    pub price: int,
    pub leave_msg: Seq<char>,
    pub group: int,
    pub merged: Seq<Seq<char>>,
    pub splited: bool,
    pub has_same_phone_order: bool,
}

impl View for Order {
    type V = OrderModel;

    open spec fn view(&self) -> OrderModel {
        OrderModel {
            id: self.id@,
            total_price: self.total_price as int,
            pay_amount: self.pay_amount as int,
            status: self.status@,
            consignee: self.consignee@,
            shipping_address: self.shipping_address@,
            phone: self.phone@,
            telephone: self.telephone@,
            item_name: self.item_name@,
            total_count: self.total_count as int,
            price: self.price as int,
            leave_msg: self.leave_msg@,
            group: self.group as int,
            merged: self.merged.deep_view(),
            splited: self.splited,
            has_same_phone_order: self.has_same_phone_order,
        }
    }
}

/// The models of a sequence of orders.
pub open spec fn models(s: Seq<Order>) -> Seq<OrderModel> {
    s.map_values(|o: Order| o@)
}

/// A field text normalized for one-row-per-record rendering: commas become
/// full-width commas, carriage returns are stripped.
pub open spec fn normalized(s: Seq<char>) -> Seq<char>
    decreases s.len(),
{
    if s.len() == 0 {
        Seq::empty()
    } else {
        normalized(s.drop_last()) + normalized_char(s.last())
    }
}

/// What one character contributes to a normalized field.
pub open spec fn normalized_char(c: char) -> Seq<char> {
    if c == ',' {
        seq!['，']
    } else if c == '\r' {
        Seq::empty()
    } else {
        seq![c]
    }
}

/// Normalizes a field text for rendering.
pub fn normalize_field(s: &str) -> (r: String)
    ensures
        r@ == normalized(s@),
{
    let n = s.unicode_len();
    let mut r = String::new();
    let mut i: usize = 0;
    while i < n
        invariant
            i <= n,
            n == s@.len(),
            r@ == normalized(s@.take(i as int)),
        decreases n - i,
    {
        let c = s.get_char(i);
        if c == ',' {
            push_char(&mut r, '，');
        } else if c == '\r' {
            // dropped
        } else {
            push_char(&mut r, c);
        }
        proof {
            assert(s@.take(i + 1).drop_last() =~= s@.take(i as int));
            assert(s@.take(i + 1).last() == s@[i as int]);
            assert(r@ =~= normalized(s@.take(i + 1)));
        }
        i = i + 1;
    }
    proof {
        assert(s@.take(n as int) =~= s@);
    }
    r
}

/// The first position of `c` in `s`, or -1 when `s` does not hold it.
pub open spec fn find_char(s: Seq<char>, c: char) -> int
    decreases s.len(),
{
    if s.len() == 0 {
        -1
    } else if s[0] == c {
        0
    } else {
        let r = find_char(s.drop_first(), c);
        if r < 0 {
            -1
        } else {
            r + 1
        }
    }
}

proof fn lemma_find_char_at(s: Seq<char>, c: char, i: int)
    requires
        0 <= i < s.len(),
        s[i] == c,
        forall|j: int| 0 <= j < i ==> s[j] != c,
    ensures
        find_char(s, c) == i,
    decreases i,
{
    if i == 0 {
    } else {
        assert(forall|j: int| 0 <= j < i - 1 ==> s.drop_first()[j] == s[j + 1]);
        lemma_find_char_at(s.drop_first(), c, i - 1);
    }
}

proof fn lemma_find_char_none(s: Seq<char>, c: char)
    requires
        forall|j: int| 0 <= j < s.len() ==> s[j] != c,
    ensures
        find_char(s, c) == -1,
    decreases s.len(),
{
    if s.len() > 0 {
        assert(forall|j: int| 0 <= j < s.len() - 1 ==> s.drop_first()[j] == s[j + 1]);
        lemma_find_char_none(s.drop_first(), c);
    }
}

/// The product number of an item name: the part before the first space, or
/// empty when the name holds no space.
pub open spec fn item_no_model(name: Seq<char>) -> Seq<char> {
    let i = find_char(name, ' ');
    if i >= 0 {
        name.take(i)
    } else {
        Seq::empty()
    }
}

/// The fold of one order into another: item names newline-joined, quantity
/// and total price summed, buyer notes joined; every other field is kept
/// from the absorbing order.
pub open spec fn merge_model(a: OrderModel, b: OrderModel) -> OrderModel {
    OrderModel {
        item_name: a.item_name + seq!['\n'] + b.item_name,
        total_count: a.total_count + b.total_count,
        total_price: a.total_price + b.total_price,
        leave_msg: if a.leave_msg.len() > 0 && b.leave_msg.len() > 0 {
            a.leave_msg + seq!['\n'] + b.leave_msg
        } else {
            a.leave_msg + b.leave_msg
        },
        ..a
    }
}

/// A cross-id fold: [`merge_model`], and the absorbed order's id is recorded.
pub open spec fn merge_diff_model(a: OrderModel, b: OrderModel) -> OrderModel {
    OrderModel { merged: a.merged.push(b.id), ..merge_model(a, b) }
}

/// The sentinel record that seeds decoding: it precedes the very first row.
pub open spec fn empty_model() -> OrderModel {
    OrderModel {
        id: "unknow"@,
        total_price: 0,
        pay_amount: 0,
        status: "unknow"@,
        consignee: "unknow"@,
        shipping_address: "unknow"@,
        phone: Seq::empty(),
        telephone: Seq::empty(),
        item_name: "unknow"@,
        total_count: 0,
        price: 0,
        leave_msg: Seq::empty(),
        group: 0,
        merged: Seq::empty(),
        splited: false,
        has_same_phone_order: false,
    }
}

/// A numeric cell within [`CELL_LIMIT`]; text and empty cells always pass.
pub open spec fn cell_in_bounds(c: Cell) -> bool {
    match c {
        Cell::Num(v) => -CELL_LIMIT <= v <= CELL_LIMIT,
        _ => true,
    }
}

/// Every numeric cell of the row is within [`CELL_LIMIT`].
pub open spec fn cells_bounded(row: Seq<Cell>) -> bool {
    forall|i: int| 0 <= i < row.len() ==> cell_in_bounds(#[trigger] row[i])
}

/// Truncating division by one hundred: a cell value in hundredths becomes a
/// whole quantity.
pub open spec fn trunc_div100(v: int) -> int {
    if v >= 0 {
        v / 100
    } else {
        -((-v) / 100)
    }
}

/// The order that a raw row decodes to, given the title index, the previous
/// record and the 1-based row position. An absent or mistyped cell falls
/// back to the previous record's field, except the fields that fall back to
/// an explicit default; a blank id marks the row as part of the previous
/// record's group.
pub open spec fn spec_from_row(
    row: Seq<Cell>,
    m: Map<Seq<char>, int>,
    last: OrderModel,
    row_index: int,
) -> OrderModel {
    let count = match spec_get_num(row, m, "数量"@) {
        Some(v) => trunc_div100(v),
        None => 0,
    };
    let price = match spec_get_num(row, m, "单价(元)"@) {
        Some(v) => v,
        None => 0,
    };
    let same_group = spec_get_string(row, m, "订单编号"@) is None;
    OrderModel {
        id: match spec_get_string(row, m, "订单编号"@) {
            Some(s) => normalized(s),
            None => last.id,
        },
        total_price: count * price,
        pay_amount: match spec_get_num(row, m, "实付款(元)"@) {
            Some(v) => v,
            None => last.pay_amount,
        },
        status: match spec_get_string(row, m, "订单状态"@) {
            Some(s) => normalized(s),
            None => last.status,
        },
        consignee: match spec_get_string(row, m, "收货人姓名"@) {
            Some(s) => normalized(s),
            None => last.consignee,
        },
        shipping_address: match spec_get_string(row, m, "收货地址"@) {
            Some(s) => normalized(s),
            None => last.shipping_address,
        },
        phone: if same_group {
            last.phone
        } else {
            match spec_get_string(row, m, "联系手机"@) {
                Some(s) => normalized(s),
                None => Seq::empty(),
            }
        },
        telephone: if same_group {
            last.telephone
        } else {
            match spec_get_string(row, m, "联系电话"@) {
                Some(s) => normalized(s),
                None => Seq::empty(),
            }
        },
        item_name: (match spec_get_string(row, m, "货品标题"@) {
            Some(s) => normalized(s),
            None => "unknow"@,
        }) + " * "@ + signed_dec_digits(count),
        total_count: count,
        price: price,
        leave_msg: match spec_get_string(row, m, "买家留言"@) {
            Some(s) => normalized(s),
            None => Seq::empty(),
        },
        group: if same_group {
            last.group
        } else {
            row_index
        },
        merged: Seq::empty(),
        splited: false,
        has_same_phone_order: false,
    }
}

fn div100_trunc(v: i64) -> (r: i64)
    requires
        -CELL_LIMIT <= v <= CELL_LIMIT,
    ensures
        r as int == trunc_div100(v as int),
        -10_000_000 <= r <= 10_000_000,
{
    if v >= 0 {
        ((v as u64) / 100) as i64
    } else {
        -((((-v) as u64) / 100) as i64)
    }
}

impl Order {
    /// The product number: the part of the item name before the first space,
    /// or empty when there is none.
    pub fn item_no(&self) -> (r: String)
        ensures
            r@ == item_no_model(self.item_name@),
    {
        let n = self.item_name.as_str().unicode_len();
        let mut i: usize = 0;
        while i < n
            invariant
                i <= n,
                n == self.item_name@.len(),
                forall|j: int| 0 <= j < i ==> self.item_name@[j] != ' ',
            decreases n - i,
        {
            if self.item_name.as_str().get_char(i) == ' ' {
                proof {
                    lemma_find_char_at(self.item_name@, ' ', i as int);
                }
                let sub = self.item_name.as_str().substring_char(0, i);
                return String::from_str(sub);
            }
            i = i + 1;
        }
        proof {
            lemma_find_char_none(self.item_name@, ' ');
        }
        String::new()
    }

    /// The sentinel record that seeds decoding.
    pub fn empty() -> (o: Order)
        ensures
            o@ == empty_model(),
    {
        let o = Order {
            id: String::from_str("unknow"),
            total_price: 0,
            pay_amount: 0,
            status: String::from_str("unknow"),
            consignee: String::from_str("unknow"),
            shipping_address: String::from_str("unknow"),
            phone: String::new(),
            telephone: String::new(),
            item_name: String::from_str("unknow"),
            total_count: 0,
            price: 0,
            leave_msg: String::new(),
            group: 0,
            merged: Vec::new(),
            splited: false,
            has_same_phone_order: false,
        };
        proof {
            assert(o.merged.deep_view() =~= Seq::<Seq<char>>::empty());
            assert(o@ =~= empty_model());
        }
        o
    }

    /// Decodes one raw row into an order, with carry-forward from the
    /// previous record for absent cells.
    pub fn from_row(
        item: &Vec<Cell>,
        title_index: &TitleIndex,
        last_order: &Order,
        row_index: u32,
    ) -> (o: Order)
        requires
            cells_bounded(item@),
        ensures
            o@ == spec_from_row(item@, title_index@, last_order@, row_index as int),
    {
        let count = match get_num(item, title_index, "数量") {
            Some(v) => div100_trunc(v),
            None => 0,
        };
        let price = match get_num(item, title_index, "单价(元)") {
            Some(v) => v,
            None => 0,
        };
        assert(-CELL_LIMIT <= price <= CELL_LIMIT);
        assert(-10_000_000 <= count <= 10_000_000);
        assert(-0x7fff_ffff_ffff_ffff <= (count as int) * (price as int)
            <= 0x7fff_ffff_ffff_ffff) by (nonlinear_arith)
            requires
                -10_000_000 <= count <= 10_000_000,
                -1_000_000_000 <= price <= 1_000_000_000,
        ;
        let total_price = count * price;
        let (id, same_group, group) = match get_string(item, title_index, "订单编号") {
            Some(s) => (normalize_field(s.as_str()), false, row_index),
            None => (last_order.id.clone(), true, last_order.group),
        };
        let mut item_name = match get_string(item, title_index, "货品标题") {
            Some(s) => normalize_field(s.as_str()),
            None => String::from_str("unknow"),
        };
        item_name.append(" * ");
        let count_text = i64_to_dec(count);
        item_name.append(count_text.as_str());
        let o = Order {
            id,
            total_price,
            pay_amount: match get_num(item, title_index, "实付款(元)") {
                Some(v) => v,
                None => last_order.pay_amount,
            },
            status: match get_string(item, title_index, "订单状态") {
                Some(s) => normalize_field(s.as_str()),
                None => last_order.status.clone(),
            },
            consignee: match get_string(item, title_index, "收货人姓名") {
                Some(s) => normalize_field(s.as_str()),
                None => last_order.consignee.clone(),
            },
            shipping_address: match get_string(item, title_index, "收货地址") {
                Some(s) => normalize_field(s.as_str()),
                None => last_order.shipping_address.clone(),
            },
            phone: if same_group {
                last_order.phone.clone()
            } else {
                match get_string(item, title_index, "联系手机") {
                    Some(s) => normalize_field(s.as_str()),
                    None => String::new(),
                }
            },
            telephone: if same_group {
                last_order.telephone.clone()
            } else {
                match get_string(item, title_index, "联系电话") {
                    Some(s) => normalize_field(s.as_str()),
                    None => String::new(),
                }
            },
            item_name,
            total_count: count,
            price,
            leave_msg: match get_string(item, title_index, "买家留言") {
                Some(s) => normalize_field(s.as_str()),
                None => String::new(),
            },
            group,
            merged: Vec::new(),
            splited: false,
            has_same_phone_order: false,
        };
        proof {
            assert(o.merged.deep_view() =~= Seq::<Seq<char>>::empty());
            assert(o@ =~= spec_from_row(item@, title_index@, last_order@, row_index as int));
        }
        o
    }

    /// Absorbs another order's line items: names newline-joined, quantity and
    /// total price summed, buyer notes joined. Identity and contact fields
    /// are untouched.
    pub fn merge(&mut self, other: &Order)
        requires
            i64::MIN <= old(self)@.total_count + other@.total_count <= i64::MAX,
            i64::MIN <= old(self)@.total_price + other@.total_price <= i64::MAX,
        ensures
            final(self)@ == merge_model(old(self)@, other@),
    {
        self.item_name.append("\n");
        self.item_name.append(other.item_name.as_str());
        self.total_count = self.total_count + other.total_count;
        self.total_price = self.total_price + other.total_price;
        if !self.leave_msg.as_str().is_empty() && !other.leave_msg.as_str().is_empty() {
            self.leave_msg.append("\n");
        }
        self.leave_msg.append(other.leave_msg.as_str());
        proof {
            reveal_strlit("\n");
            assert(self@ =~= merge_model(old(self)@, other@));
        }
    }

    /// Absorbs a distinct order: [`Order::merge`], and its id is recorded in
    /// `merged` as the audit trail of the cross-id merge.
    pub fn merge_diff(&mut self, other: &Order)
        requires
            i64::MIN <= old(self)@.total_count + other@.total_count <= i64::MAX,
            i64::MIN <= old(self)@.total_price + other@.total_price <= i64::MAX,
        ensures
            final(self)@ == merge_diff_model(old(self)@, other@),
    {
        self.merge(other);
        let ghost before = self.merged.deep_view();
        self.merged.push(other.id.clone());
        proof {
            assert(self.merged.deep_view() =~= before.push(other.id@));
            assert(self@ =~= merge_diff_model(old(self)@, other@));
        }
    }

    /// The header row of the output sheet.
    pub fn excel_title_row() -> (r: Vec<String>)
        ensures
            r.deep_view() =~= spec_title_row(),
    {
        let mut r: Vec<String> = Vec::new();
        r.push(String::from_str("订单编号"));
        r.push(String::from_str("手动处理"));
        r.push(String::from_str("实付款(元)"));
        r.push(String::from_str("订单状态"));
        r.push(String::from_str("收货人姓名"));
        r.push(String::from_str("收货地址"));
        r.push(String::from_str("联系手机"));
        r.push(String::from_str("货品标题"));
        r.push(String::from_str("数量"));
        r.push(String::from_str("买家留言"));
        proof {
            assert(r.deep_view() =~~= spec_title_row());
        }
        r
    }

    /// The output projection of the order, one text per column.
    pub fn as_excel_row(&self) -> (r: Vec<String>)
        ensures
            r.deep_view() == spec_out_row(self@),
    {
        let mut flag = String::new();
        if self.has_same_phone_order {
            flag.append("未合");
        }
        if self.merged.len() > 0 {
            flag.append("已合");
        }
        if self.splited {
            flag.append("已拆");
        }
        let money = if self.merged.len() > 0 || self.splited {
            self.total_price
        } else {
            self.pay_amount
        };
        let phone = if !self.phone.as_str().is_empty() {
            self.phone.clone()
        } else {
            self.telephone.clone()
        };
        let mut r: Vec<String> = Vec::new();
        r.push(self.id.clone());
        r.push(flag);
        r.push(money_to_dec(money));
        r.push(self.status.clone());
        r.push(self.consignee.clone());
        r.push(self.shipping_address.clone());
        r.push(phone);
        r.push(self.item_name.clone());
        r.push(i64_to_dec(self.total_count));
        r.push(self.leave_msg.clone());
        proof {
            assert(r.deep_view() =~~= spec_out_row(self@));
        }
        r
    }
}

/// The titles of the output columns, in output order.
pub open spec fn spec_title_row() -> Seq<Seq<char>> {
    seq![
        "订单编号"@,
        "手动处理"@,
        "实付款(元)"@,
        "订单状态"@,
        "收货人姓名"@,
        "收货地址"@,
        "联系手机"@,
        "货品标题"@,
        "数量"@,
        "买家留言"@,
    ]
}

/// The flag column: the concatenation, in fixed order, of the marks for an
/// unmerged contact collision, a completed cross-id merge, and a split.
pub open spec fn spec_flag_text(o: OrderModel) -> Seq<char> {
    (if o.has_same_phone_order {
        "未合"@
    } else {
        Seq::empty()
    }) + (if o.merged.len() > 0 {
        "已合"@
    } else {
        Seq::empty()
    }) + (if o.splited {
        "已拆"@
    } else {
        Seq::empty()
    })
}

/// The output row of an order: id, flags, money (the recomputed total when
/// the order was merged or split, else the reported paid amount), status,
/// consignee, address, phone (the landline when the mobile is empty), item
/// name, quantity, buyer note.
pub open spec fn spec_out_row(o: OrderModel) -> Seq<Seq<char>> {
    seq![
        o.id,
        spec_flag_text(o),
        money_digits(
            if o.merged.len() > 0 || o.splited {
                o.total_price
            } else {
                o.pay_amount
            },
        ),
        o.status,
        o.consignee,
        o.shipping_address,
        if o.phone.len() > 0 {
            o.phone
        } else {
            o.telephone
        },
        o.item_name,
        signed_dec_digits(o.total_count),
        o.leave_msg,
    ]
}

} // verus!
