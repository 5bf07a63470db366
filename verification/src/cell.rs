//! Typed spreadsheet cells and the title index built from a header row.

use vstd::prelude::*;
use vstd::string::*;

verus! {

/// One spreadsheet cell as the decoder sees it.
///
/// A numeric cell is held in hundredths (two implied decimal places), so that
/// money amounts stay exact integers throughout the pipeline.
pub enum Cell {
    Str(String),
    Num(i64),
    Empty,
}

/// The text of a cell, if it is a text cell.
pub open spec fn cell_str(c: Cell) -> Option<Seq<char>> {
    match c {
        Cell::Str(s) => Some(s@),
        _ => None,
    }
}

/// The numeric value of a cell in hundredths, if it is a numeric cell.
pub open spec fn cell_num(c: Cell) -> Option<int> {
    match c {
        Cell::Num(v) => Some(v as int),
        _ => None,
    }
}

/// The mapping that a sequence of (title, column) entries denotes: a later
/// entry for the same title wins.
pub open spec fn entries_map(s: Seq<(String, usize)>) -> Map<Seq<char>, int>
    decreases s.len(),
{
    if s.len() == 0 {
        Map::empty()
    } else {
        entries_map(s.drop_last()).insert(s.last().0@, s.last().1 as int)
    }
}

/// The title-to-column mapping of a header row: each text cell maps its text
/// to its column, and of duplicate titles the last occurrence wins.
pub open spec fn header_map(cells: Seq<Cell>) -> Map<Seq<char>, int>
    decreases cells.len(),
{
    if cells.len() == 0 {
        Map::empty()
    } else {
        match cells.last() {
            Cell::Str(s) => header_map(cells.drop_last()).insert(s@, cells.len() - 1),
            _ => header_map(cells.drop_last()),
        }
    }
}

/// How many text cells a header row holds.
pub open spec fn title_count(cells: Seq<Cell>) -> nat
    decreases cells.len(),
{
    if cells.len() == 0 {
        0
    } else {
        title_count(cells.drop_last()) + (if cells.last() is Str {
            1nat
        } else {
            0nat
        })
    }
}

/// A title-to-column index over the header row of a sheet.
pub struct TitleIndex {
    entries: Vec<(String, usize)>,
}

impl View for TitleIndex {
    type V = Map<Seq<char>, int>;

    closed spec fn view(&self) -> Map<Seq<char>, int> {
        entries_map(self.entries@)
    }
}

impl TitleIndex {
    /// How many entries the index holds (duplicate titles included).
    pub closed spec fn spec_len(&self) -> nat {
        self.entries@.len()
    }

    pub fn len(&self) -> (n: usize)
        ensures
            n == self.spec_len(),
    {
        self.entries.len()
    }

    /// Looks a title up; of duplicate entries the last one wins.
    pub fn get(&self, title: &str) -> (r: Option<usize>)
        ensures
            match r {
                Some(col) => self@.contains_key(title@) && self@[title@] == col as int,
                None => !self@.contains_key(title@),
            },
    {
        let title_string = String::from_str(title);
        let mut i = self.entries.len();
        while i > 0
            invariant
                i <= self.entries@.len(),
                title_string@ == title@,
                forall|j: int|
                    i <= j < self.entries@.len() ==> self.entries@[j].0@ != title@,
            decreases i,
        {
            i = i - 1;
            if self.entries[i].0 == title_string {
                proof {
                    lemma_entries_map_no_late_match(self.entries@, i + 1, title@);
                    assert(self.entries@.take(i + 1).drop_last() =~= self.entries@.take(i as int));
                    assert(self.entries@.take(i + 1).last() == self.entries@[i as int]);
                }
                return Some(self.entries[i].1);
            }
        }
        proof {
            lemma_entries_map_no_late_match(self.entries@, 0, title@);
            assert(self.entries@.take(0) =~= Seq::<(String, usize)>::empty());
        }
        None
    }
}

/// When no entry at or after position `i` carries title `k`, the denoted map
/// answers for `k` exactly as the map of the first `i` entries does.
proof fn lemma_entries_map_no_late_match(s: Seq<(String, usize)>, i: int, k: Seq<char>)
    requires
        0 <= i <= s.len(),
        forall|j: int| i <= j < s.len() ==> s[j].0@ != k,
    ensures
        entries_map(s).contains_key(k) == entries_map(s.take(i)).contains_key(k),
        entries_map(s).contains_key(k) ==> entries_map(s)[k] == entries_map(s.take(i))[k],
    decreases s.len() - i,
{
    if i == s.len() {
        assert(s.take(i) =~= s);
    } else {
        lemma_entries_map_no_late_match(s, i + 1, k);
        assert(s.take(i + 1).drop_last() =~= s.take(i));
        assert(s.take(i + 1).last() == s[i]);
    }
}

/// Builds the title index of a header row: one entry per text cell, in
/// column order, so that a duplicate title resolves to its last column.
pub fn build_index(header: &Vec<Cell>) -> (index: TitleIndex)
    ensures
        index@ == header_map(header@),
        index.spec_len() == title_count(header@),
{
    let mut entries: Vec<(String, usize)> = Vec::new();
    let mut i: usize = 0;
    while i < header.len()
        invariant
            i <= header@.len(),
            entries_map(entries@) == header_map(header@.take(i as int)),
            entries@.len() == title_count(header@.take(i as int)),
        decreases header@.len() - i,
    {
        proof {
            assert(header@.take(i + 1).drop_last() =~= header@.take(i as int));
            assert(header@.take(i + 1).last() == header@[i as int]);
        }
        match &header[i] {
            Cell::Str(s) => {
                let ghost old_entries = entries@;
                entries.push((s.clone(), i));
                proof {
                    assert(entries@.drop_last() =~= old_entries);
                }
            },
            _ => {},
        }
        i = i + 1;
    }
    proof {
        assert(header@.take(header@.len() as int) =~= header@);
    }
    TitleIndex { entries }
}

/// The string that a row yields for a titled column: the text of the cell in
/// that column, if the header maps the title and the cell is a text cell.
pub open spec fn spec_get_string(row: Seq<Cell>, m: Map<Seq<char>, int>, title: Seq<char>) -> Option<
    Seq<char>,
> {
    if m.contains_key(title) && 0 <= m[title] < row.len() {
        cell_str(row[m[title]])
    } else {
        None
    }
}

/// The number (in hundredths) that a row yields for a titled column.
pub open spec fn spec_get_num(row: Seq<Cell>, m: Map<Seq<char>, int>, title: Seq<char>) -> Option<
    int,
> {
    if m.contains_key(title) && 0 <= m[title] < row.len() {
        cell_num(row[m[title]])
    } else {
        None
    }
}

/// Reads the text cell of the column that `title` maps to, if any.
pub fn get_string(row: &Vec<Cell>, index: &TitleIndex, title: &str) -> (r: Option<String>)
    ensures
        match r {
            Some(s) => spec_get_string(row@, index@, title@) == Some(s@),
            None => spec_get_string(row@, index@, title@) is None,
        },
{
    match index.get(title) {
        None => None,
        Some(col) => {
            if col < row.len() {
                match &row[col] {
                    Cell::Str(s) => Some(s.clone()),
                    _ => None,
                }
            } else {
                None
            }
        },
    }
}

/// Reads the numeric cell (in hundredths) of the column that `title` maps to.
pub fn get_num(row: &Vec<Cell>, index: &TitleIndex, title: &str) -> (r: Option<i64>)
    ensures
        match r {
            Some(v) => spec_get_num(row@, index@, title@) == Some(v as int),
            None => spec_get_num(row@, index@, title@) is None,
        },
{
    match index.get(title) {
        None => None,
        Some(col) => {
            if col < row.len() {
                match &row[col] {
                    Cell::Num(v) => Some(*v),
                    _ => None,
                }
            } else {
                None
            }
        },
    }
}

} // verus!
