//! The mutable per-document state of the traversal engine: the in-progress
//! record (column to captured text) and the tracker of which columns each
//! group has populated since the last flush.

use crate::tables::GroupKey;
use crate::tables::clone_strings;
use vstd::prelude::*;

verus! {

/// The value of one output column while a record is being assembled.
pub enum Match {
    /// Captured text from a matched element or attribute.
    Value(String),
    /// The column was seeded by its group but nothing was captured yet.
    Nothing,
}

/// The mathematical value of a [`Match`].
pub ghost enum MatchV {
    Value(Seq<char>),
    Nothing,
}

impl View for Match {
    type V = MatchV;

    open spec fn view(&self) -> MatchV {
        match self {
            Match::Value(s) => MatchV::Value(s@),
            Match::Nothing => MatchV::Nothing,
        }
    }
}

/// One binding of the in-progress record.
pub struct ResultEntry {
    pub column: String,
    pub value: Match,
}

/// The in-progress record: column name to captured value.  A later entry
/// shadows an earlier one, so writing is a push and reading scans from
/// the back.
pub struct ResultRow {
    pub entries: Vec<ResultEntry>,
}

pub open spec fn result_row_view(s: Seq<ResultEntry>) -> Map<Seq<char>, MatchV>
    decreases s,
{
    if s.len() == 0 {
        Map::empty()
    } else {
        result_row_view(s.drop_last()).insert(s.last().column@, s.last().value@)
    }
}

impl View for ResultRow {
    type V = Map<Seq<char>, MatchV>;

    open spec fn view(&self) -> Map<Seq<char>, MatchV> {
        result_row_view(self.entries@)
    }
}

impl ResultRow {
    pub fn new() -> (r: ResultRow)
        ensures
            r@ == Map::<Seq<char>, MatchV>::empty(),
    {
        ResultRow { entries: Vec::new() }
    }

    pub fn insert(&mut self, column: String, value: Match)
        ensures
            final(self)@ == old(self)@.insert(column@, value@),
    {
        let ghost before = self.entries@;
        self.entries.push(ResultEntry { column, value });
        proof {
            assert(self.entries@.drop_last() =~= before);
        }
    }

    #[verifier::loop_isolation(false)]
    pub fn get<'a>(&'a self, column: &String) -> (r: Option<&'a Match>)
        ensures
            match r {
                Some(v) => self@.contains_key(column@) && self@[column@] == v@,
                None => !self@.contains_key(column@),
            },
    {
        let ghost key = column@;
        let ghost all = self.entries@;
        let mut i: usize = self.entries.len();
        proof {
            assert(all.subrange(0, all.len() as int) =~= all);
        }
        while i > 0
            invariant
                i <= self.entries.len(),
                result_row_view(all).contains_key(key) == result_row_view(
                    all.subrange(0, i as int),
                ).contains_key(key),
                result_row_view(all).contains_key(key) ==> result_row_view(all)[key]
                    == result_row_view(all.subrange(0, i as int))[key],
            decreases i,
        {
            i = i - 1;
            let e = &self.entries[i];
            proof {
                assert(all.subrange(0, i as int + 1).drop_last() =~= all.subrange(0, i as int));
                assert(all.subrange(0, i as int + 1).last() == all[i as int]);
            }
            if e.column == *column {
                return Some(&e.value);
            }
        }
        proof {
            assert(all.subrange(0, 0) =~= Seq::<ResultEntry>::empty());
        }
        None
    }
}

/// One group's populated-column record since the last flush.
pub struct ParsedEntry {
    pub name: String,
    pub depth: usize,
    pub columns: Vec<String>,
}

pub open spec fn parsed_entry_key(e: ParsedEntry) -> (Seq<char>, int) {
    (e.name@, e.depth as int)
}

/// Whether a key is carried by some entry.
pub open spec fn parsed_has_key(s: Seq<ParsedEntry>, k: (Seq<char>, int)) -> bool {
    exists|i: int| 0 <= i < s.len() && parsed_entry_key(#[trigger] s[i]) == k
}

pub open spec fn parsed_index_of(s: Seq<ParsedEntry>, k: (Seq<char>, int)) -> int {
    choose|i: int| 0 <= i < s.len() && parsed_entry_key(#[trigger] s[i]) == k
}

pub open spec fn parsed_tracker_view(s: Seq<ParsedEntry>) -> Map<(Seq<char>, int), Set<Seq<char>>> {
    Map::new(
        |k: (Seq<char>, int)| parsed_has_key(s, k),
        |k: (Seq<char>, int)| s[parsed_index_of(s, k)].columns.deep_view().to_set(),
    )
}

/// The per-group set of columns already populated during the current pass;
/// drives the flush decision.  One entry per group key.
pub struct ParsedTracker {
    pub entries: Vec<ParsedEntry>,
}

impl View for ParsedTracker {
    type V = Map<(Seq<char>, int), Set<Seq<char>>>;

    open spec fn view(&self) -> Map<(Seq<char>, int), Set<Seq<char>>> {
        parsed_tracker_view(self.entries@)
    }
}

impl ParsedTracker {
    /// Each group key is carried by at most one entry.
    pub open spec fn wf(&self) -> bool {
        forall|i: int, j: int|
            0 <= i < j < self.entries@.len() ==> parsed_entry_key(#[trigger] self.entries@[i])
                != parsed_entry_key(#[trigger] self.entries@[j])
    }

    pub fn new() -> (r: ParsedTracker)
        ensures
            r@ == Map::<(Seq<char>, int), Set<Seq<char>>>::empty(),
            r.wf(),
    {
        let r = ParsedTracker { entries: Vec::new() };
        proof {
            assert(r@ =~= Map::<(Seq<char>, int), Set<Seq<char>>>::empty());
        }
        r
    }

    /// Under `wf`, the entry at `i` is the one the view reads for its key.
    proof fn lemma_entry_at(s: Seq<ParsedEntry>, i: int)
        requires
            forall|p: int, q: int|
                0 <= p < q < s.len() ==> parsed_entry_key(#[trigger] s[p]) != parsed_entry_key(
                    #[trigger] s[q],
                ),
            0 <= i < s.len(),
        ensures
            parsed_has_key(s, parsed_entry_key(s[i])),
            parsed_index_of(s, parsed_entry_key(s[i])) == i,
    {
        let k = parsed_entry_key(s[i]);
        assert(parsed_has_key(s, k));
        let j = parsed_index_of(s, k);
        if j != i {
            assert(parsed_entry_key(s[i]) != parsed_entry_key(s[j]));
        }
    }

    #[verifier::loop_isolation(false)]
    fn find(&self, key: &GroupKey) -> (r: Option<usize>)
        ensures
            match r {
                Some(i) => i < self.entries@.len() && parsed_entry_key(self.entries@[i as int])
                    == key@,
                None => !parsed_has_key(self.entries@, key@),
            },
    {
        let mut i: usize = 0;
        while i < self.entries.len()
            invariant
                i <= self.entries.len(),
                forall|j: int|
                    0 <= j < i ==> parsed_entry_key(#[trigger] self.entries@[j]) != key@,
            decreases self.entries.len() - i,
        {
            let e = &self.entries[i];
            if e.depth == key.depth && e.name == key.name {
                return Some(i);
            }
            i = i + 1;
        }
        None
    }

    /// Whether the tracker has an entry for the group.
    pub fn contains_key(&self, key: &GroupKey) -> (b: bool)
        ensures
            b == self@.contains_key(key@),
    {
        self.find(key).is_some()
    }

    /// Records that `column` has been populated for the group `key`.
    pub fn mark(&mut self, key: &GroupKey, column: &String)
        requires
            old(self).wf(),
        ensures
            final(self).wf(),
            final(self)@ == old(self)@.insert(
                key@,
                (if old(self)@.contains_key(key@) {
                    old(self)@[key@]
                } else {
                    Set::<Seq<char>>::empty()
                }).insert(column@),
            ),
    {
        let ghost before = self.entries@;
        match self.find(key) {
            Some(i) => {
                let mut columns = clone_strings(&self.entries[i].columns);
                columns.push(column.clone());
                proof {
                    assert(columns.deep_view() =~= before[i as int].columns.deep_view().push(
                        column@,
                    ));
                    Self::lemma_entry_at(before, i as int);
                }
                let entry = ParsedEntry { name: key.name.clone(), depth: key.depth, columns };
                self.entries.set(i, entry);
                proof {
                    let after = self.entries@;
                    let ghost kv = key@;
                    assert forall|j: int| 0 <= j < after.len() implies parsed_entry_key(
                        #[trigger] after[j],
                    ) == parsed_entry_key(before[j]) by {}
                    assert(self.wf());
                    assert forall|k: (Seq<char>, int)|
                        parsed_has_key(after, k) == parsed_has_key(before, k) by {
                        if parsed_has_key(after, k) {
                            let w = choose|w: int|
                                0 <= w < after.len() && parsed_entry_key(#[trigger] after[w]) == k;
                            assert(parsed_entry_key(before[w]) == k);
                        }
                        if parsed_has_key(before, k) {
                            let w = choose|w: int|
                                0 <= w < before.len() && parsed_entry_key(#[trigger] before[w])
                                    == k;
                            assert(parsed_entry_key(after[w]) == k);
                        }
                    }
                    assert forall|k: (Seq<char>, int)|
                        parsed_has_key(after, k) && k != kv implies after[parsed_index_of(
                        after,
                        k,
                    )] == before[parsed_index_of(before, k)] by {
                        let w = parsed_index_of(after, k);
                        assert(0 <= w < after.len() && parsed_entry_key(after[w]) == k);
                        assert(w != i);
                        assert(after[w] == before[w]);
                        Self::lemma_entry_at(before, w);
                    }
                    Self::lemma_entry_at(after, i as int);
                    lemma_to_set_push(before[i as int].columns.deep_view(), column@);
                    assert(self@ =~= old(self)@.insert(
                        kv,
                        old(self)@[kv].insert(column@),
                    ));
                }
            },
            None => {
                let entry = ParsedEntry {
                    name: key.name.clone(),
                    depth: key.depth,
                    columns: clone_one(column),
                };
                self.entries.push(entry);
                proof {
                    let after = self.entries@;
                    let ghost kv = key@;
                    assert(parsed_entry_key(after[after.len() - 1]) == kv);
                    assert forall|j: int| 0 <= j < before.len() implies after[j] == before[j] by {}
                    assert(self.wf());
                    assert forall|k: (Seq<char>, int)|
                        parsed_has_key(after, k) == (parsed_has_key(before, k) || k == kv) by {
                        if parsed_has_key(after, k) {
                            let w = choose|w: int|
                                0 <= w < after.len() && parsed_entry_key(#[trigger] after[w]) == k;
                            if w < before.len() {
                                assert(parsed_entry_key(before[w]) == k);
                            }
                        }
                        if parsed_has_key(before, k) {
                            let w = choose|w: int|
                                0 <= w < before.len() && parsed_entry_key(#[trigger] before[w])
                                    == k;
                            assert(parsed_entry_key(after[w]) == k);
                        }
                        if k == kv {
                            assert(parsed_entry_key(after[after.len() - 1]) == k);
                        }
                    }
                    assert forall|k: (Seq<char>, int)|
                        parsed_has_key(before, k) implies after[parsed_index_of(after, k)]
                        == before[parsed_index_of(before, k)] by {
                        let w = parsed_index_of(before, k);
                        assert(0 <= w < before.len() && parsed_entry_key(before[w]) == k);
                        assert(parsed_entry_key(after[w]) == k);
                        Self::lemma_entry_at(after, w);
                        Self::lemma_entry_at(before, w);
                    }
                    Self::lemma_entry_at(after, after.len() - 1);
                    assert(after[after.len() - 1].columns.deep_view() =~= Seq::<
                        Seq<char>,
                    >::empty().push(column@));
                    lemma_to_set_push(Seq::<Seq<char>>::empty(), column@);
                    assert(Seq::<Seq<char>>::empty().to_set() =~= Set::<Seq<char>>::empty());
                    assert(self@ =~= old(self)@.insert(kv, Set::<Seq<char>>::empty().insert(
                        column@,
                    )));
                }
            },
        }
    }

    /// Empties every group's populated set, keeping the keys.
    #[verifier::loop_isolation(false)]
    pub fn clear(&mut self)
        requires
            old(self).wf(),
        ensures
            final(self).wf(),
            final(self)@.dom() == old(self)@.dom(),
            forall|k: (Seq<char>, int)| #[trigger]
                final(self)@.contains_key(k) ==> final(self)@[k] == Set::<Seq<char>>::empty(),
    {
        let ghost before = self.entries@;
        let mut i: usize = 0;
        while i < self.entries.len()
            invariant
                i <= self.entries.len(),
                self.entries@.len() == before.len(),
                forall|j: int|
                    0 <= j < before.len() ==> parsed_entry_key(#[trigger] self.entries@[j])
                        == parsed_entry_key(before[j]),
                forall|j: int|
                    0 <= j < i ==> (#[trigger] self.entries@[j]).columns.deep_view() == Seq::<
                        Seq<char>,
                    >::empty(),
            decreases self.entries.len() - i,
        {
            let name = self.entries[i].name.clone();
            let depth = self.entries[i].depth;
            let entry = ParsedEntry { name, depth, columns: Vec::new() };
            proof {
                assert(entry.columns.deep_view() =~= Seq::<Seq<char>>::empty());
            }
            self.entries.set(i, entry);
            i = i + 1;
        }
        proof {
            let after = self.entries@;
            assert(self.wf());
            assert forall|k: (Seq<char>, int)|
                parsed_has_key(after, k) == parsed_has_key(before, k) by {
                if parsed_has_key(after, k) {
                    let w = choose|w: int|
                        0 <= w < after.len() && parsed_entry_key(#[trigger] after[w]) == k;
                    assert(parsed_entry_key(before[w]) == k);
                }
                if parsed_has_key(before, k) {
                    let w = choose|w: int|
                        0 <= w < before.len() && parsed_entry_key(#[trigger] before[w]) == k;
                    assert(parsed_entry_key(after[w]) == k);
                }
            }
            assert(final(self)@.dom() =~= old(self)@.dom());
            assert forall|k: (Seq<char>, int)| #[trigger]
                final(self)@.contains_key(k) implies final(self)@[k] == Set::<
                Seq<char>,
            >::empty() by {
                let w = parsed_index_of(after, k);
                assert(0 <= w < after.len() && parsed_entry_key(after[w]) == k);
                assert(after[w].columns.deep_view().to_set() =~= Set::<Seq<char>>::empty());
            }
        }
    }

    /// Whether some group has populated at least one column.
    #[verifier::loop_isolation(false)]
    pub fn any_marked(&self) -> (b: bool)
        requires
            self.wf(),
        ensures
            b == exists|k: (Seq<char>, int)|
                #![trigger self@.contains_key(k)]
                self@.contains_key(k) && self@[k] != Set::<Seq<char>>::empty(),
    {
        let mut i: usize = 0;
        while i < self.entries.len()
            invariant
                i <= self.entries.len(),
                forall|j: int| 0 <= j < i ==> (#[trigger] self.entries@[j]).columns@.len() == 0,
            decreases self.entries.len() - i,
        {
            if self.entries[i].columns.len() > 0 {
                proof {
                    let s = self.entries@;
                    Self::lemma_entry_at(s, i as int);
                    let k = parsed_entry_key(s[i as int]);
                    let dv = s[i as int].columns.deep_view();
                    assert(dv.len() > 0);
                    assert(dv.contains(dv[0]));
                    assert(self@.contains_key(k));
                    assert(self@[k].contains(dv[0]));
                    assert(self@[k] != Set::<Seq<char>>::empty());
                }
                return true;
            }
            i = i + 1;
        }
        proof {
            let s = self.entries@;
            assert forall|k: (Seq<char>, int)|
                self@.contains_key(k) implies self@[k] == Set::<Seq<char>>::empty() by {
                let w = parsed_index_of(s, k);
                assert(0 <= w < s.len() && parsed_entry_key(s[w]) == k);
                assert(s[w].columns.deep_view().to_set() =~= Set::<Seq<char>>::empty());
            }
        }
        false
    }
}

/// A one-element vector holding a copy of the given string.
fn clone_one(column: &String) -> (r: Vec<String>)
    ensures
        r.deep_view() == Seq::<Seq<char>>::empty().push(column@),
{
    let mut r: Vec<String> = Vec::new();
    r.push(column.clone());
    proof {
        assert(r.deep_view() =~= Seq::<Seq<char>>::empty().push(column@));
    }
    r
}

/// Converting a pushed sequence to a set inserts the pushed value.
pub proof fn lemma_to_set_push(s: Seq<Seq<char>>, v: Seq<char>)
    ensures
        s.push(v).to_set() == s.to_set().insert(v),
{
    assert forall|x: Seq<char>| s.push(v).to_set().contains(x) implies s.to_set().insert(
        v,
    ).contains(x) by {
        let i = choose|i: int| 0 <= i < s.push(v).len() && s.push(v)[i] == x;
        if i < s.len() {
            assert(s.contains(x));
        }
    }
    assert forall|x: Seq<char>| s.to_set().insert(v).contains(x) implies s.push(v).to_set().contains(
        x,
    ) by {
        if x == v {
            assert(s.push(v)[s.len() as int] == x);
        } else {
            let i = choose|i: int| 0 <= i < s.len() && s[i] == x;
            assert(s.push(v)[i] == x);
        }
    }
    assert(s.push(v).to_set() =~= s.to_set().insert(v));
}

} // verus!
