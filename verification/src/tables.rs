//! The read-only matching tables that the configuration compiler produces
//! and the traversal engine consumes.
//!
//! Matching keys are structured pairs of a path string and a nesting depth;
//! the exec containers are association lists whose views are `Map`s over
//! those pairs.  A later entry for a key shadows an earlier one, so an
//! insert is a push and a lookup scans from the back.

use vstd::prelude::*;

verus! {

/// The key of a group declaration, and the engine's `recording` context:
/// a qualified element name together with its nesting depth.
pub struct GroupKey {
    pub name: String,
    pub depth: usize,
}

impl View for GroupKey {
    type V = (Seq<char>, int);

    open spec fn view(&self) -> (Seq<char>, int) {
        (self.name@, self.depth as int)
    }
}

impl GroupKey {
    pub fn duplicate(&self) -> (r: GroupKey)
        ensures
            r@ == self@,
    {
        GroupKey { name: self.name.clone(), depth: self.depth }
    }
}

/// One entry of a [`PathMap`]: a qualified path key and its payload.
pub struct PathEntry {
    pub path: String,
    pub depth: usize,
    pub value: String,
}

/// A table keyed by (path, depth): the matcher (payload = column name)
/// and the filters (payload = required literal text).
pub struct PathMap {
    pub entries: Vec<PathEntry>,
}

pub open spec fn path_map_view(s: Seq<PathEntry>) -> Map<(Seq<char>, int), Seq<char>>
    decreases s,
{
    if s.len() == 0 {
        Map::empty()
    } else {
        path_map_view(s.drop_last()).insert(
            (s.last().path@, s.last().depth as int),
            s.last().value@,
        )
    }
}

impl View for PathMap {
    type V = Map<(Seq<char>, int), Seq<char>>;

    open spec fn view(&self) -> Map<(Seq<char>, int), Seq<char>> {
        path_map_view(self.entries@)
    }
}

impl PathMap {
    pub fn new() -> (r: PathMap)
        ensures
            r@ == Map::<(Seq<char>, int), Seq<char>>::empty(),
    {
        PathMap { entries: Vec::new() }
    }

    pub fn insert(&mut self, path: String, depth: usize, value: String)
        ensures
            final(self)@ == old(self)@.insert((path@, depth as int), value@),
    {
        let ghost before = self.entries@;
        self.entries.push(PathEntry { path, depth, value });
        proof {
            assert(self.entries@.drop_last() =~= before);
        }
    }

    #[verifier::loop_isolation(false)]
    pub fn get<'a>(&'a self, path: &String, depth: usize) -> (r: Option<&'a String>)
        ensures
            match r {
                Some(v) => self@.contains_key((path@, depth as int)) && self@[
                    (path@, depth as int)
                ] == v@,
                None => !self@.contains_key((path@, depth as int)),
            },
    {
        let ghost key = (path@, depth as int);
        let ghost all = self.entries@;
        let mut i: usize = self.entries.len();
        proof {
            assert(all.subrange(0, all.len() as int) =~= all);
        }
        while i > 0
            invariant
                i <= self.entries.len(),
                all == self.entries@,
                path_map_view(all).contains_key(key) == path_map_view(
                    all.subrange(0, i as int),
                ).contains_key(key),
                path_map_view(all).contains_key(key) ==> path_map_view(all)[key]
                    == path_map_view(all.subrange(0, i as int))[key],
            decreases i,
        {
            i = i - 1;
            let e = &self.entries[i];
            proof {
                assert(all.subrange(0, i as int + 1).drop_last() =~= all.subrange(0, i as int));
                assert(all.subrange(0, i as int + 1).last() == all[i as int]);
            }
            if e.depth == depth && e.path == *path {
                return Some(&e.value);
            }
        }
        proof {
            assert(all.subrange(0, 0) =~= Seq::<PathEntry>::empty());
        }
        None
    }

    /// Whether the table has an entry for (path, depth).
    pub fn contains(&self, path: &String, depth: usize) -> (r: bool)
        ensures
            r == self@.contains_key((path@, depth as int)),
    {
        self.get(path, depth).is_some()
    }
}

/// One group declaration: a container element name, its depth, and the
/// ordered column names declared inside its block.
pub struct GroupDecl {
    pub name: String,
    pub depth: usize,
    pub columns: Vec<String>,
}

/// The declared repeating groups, keyed by (element name, depth).
pub struct Groups {
    pub entries: Vec<GroupDecl>,
}

pub open spec fn groups_view(s: Seq<GroupDecl>) -> Map<(Seq<char>, int), Seq<Seq<char>>>
    decreases s,
{
    if s.len() == 0 {
        Map::empty()
    } else {
        groups_view(s.drop_last()).insert(
            (s.last().name@, s.last().depth as int),
            s.last().columns.deep_view(),
        )
    }
}

impl View for Groups {
    type V = Map<(Seq<char>, int), Seq<Seq<char>>>;

    open spec fn view(&self) -> Map<(Seq<char>, int), Seq<Seq<char>>> {
        groups_view(self.entries@)
    }
}

/// A key is in the folded map exactly when some entry carries it.
pub proof fn lemma_groups_view_dom(s: Seq<GroupDecl>, k: (Seq<char>, int))
    ensures
        groups_view(s).contains_key(k) <==> exists|i: int|
            0 <= i < s.len() && (#[trigger] s[i].name@, s[i].depth as int) == k,
    decreases s,
{
    if s.len() > 0 {
        lemma_groups_view_dom(s.drop_last(), k);
        let last = s.len() - 1;
        if groups_view(s).contains_key(k) {
            if k == (s[last].name@, s[last].depth as int) {
                assert(0 <= last < s.len() && (s[last].name@, s[last].depth as int) == k);
            } else {
                assert(groups_view(s.drop_last()).contains_key(k));
                let i = choose|i: int|
                    0 <= i < s.drop_last().len() && (
                    #[trigger] s.drop_last()[i].name@,
                    s.drop_last()[i].depth as int,
                    ) == k;
                assert(s.drop_last()[i] == s[i]);
                assert(0 <= i < s.len() && (s[i].name@, s[i].depth as int) == k);
            }
        }
        if exists|i: int| 0 <= i < s.len() && (#[trigger] s[i].name@, s[i].depth as int) == k {
            let i = choose|i: int|
                0 <= i < s.len() && (#[trigger] s[i].name@, s[i].depth as int) == k;
            if i < last {
                assert(s.drop_last()[i] == s[i]);
                assert(0 <= i < s.drop_last().len() && (
                s.drop_last()[i].name@,
                s.drop_last()[i].depth as int,
                ) == k);
                assert(groups_view(s.drop_last()).contains_key(k));
            }
            assert(groups_view(s).contains_key(k));
        }
    }
}

impl Groups {
    pub fn new() -> (r: Groups)
        ensures
            r@ == Map::<(Seq<char>, int), Seq<Seq<char>>>::empty(),
    {
        Groups { entries: Vec::new() }
    }

    /// Registers a group at (name, depth) with an empty field list,
    /// replacing any earlier declaration of the same key.
    pub fn declare(&mut self, name: String, depth: usize)
        ensures
            final(self)@ == old(self)@.insert((name@, depth as int), Seq::<Seq<char>>::empty()),
    {
        let ghost before = self.entries@;
        let columns: Vec<String> = Vec::new();
        proof {
            assert(columns.deep_view() =~= Seq::<Seq<char>>::empty());
        }
        self.entries.push(GroupDecl { name, depth, columns });
        proof {
            assert(self.entries@.drop_last() =~= before);
        }
    }

    #[verifier::loop_isolation(false)]
    pub fn get<'a>(&'a self, name: &String, depth: usize) -> (r: Option<&'a Vec<String>>)
        ensures
            match r {
                Some(v) => self@.contains_key((name@, depth as int)) && self@[
                    (name@, depth as int)
                ] == v.deep_view(),
                None => !self@.contains_key((name@, depth as int)),
            },
    {
        let ghost key = (name@, depth as int);
        let ghost all = self.entries@;
        let mut i: usize = self.entries.len();
        proof {
            assert(all.subrange(0, all.len() as int) =~= all);
        }
        while i > 0
            invariant
                i <= self.entries.len(),
                all == self.entries@,
                groups_view(all).contains_key(key) == groups_view(
                    all.subrange(0, i as int),
                ).contains_key(key),
                groups_view(all).contains_key(key) ==> groups_view(all)[key] == groups_view(
                    all.subrange(0, i as int),
                )[key],
            decreases i,
        {
            i = i - 1;
            let e = &self.entries[i];
            proof {
                assert(all.subrange(0, i as int + 1).drop_last() =~= all.subrange(0, i as int));
                assert(all.subrange(0, i as int + 1).last() == all[i as int]);
            }
            if e.depth == depth && e.name == *name {
                return Some(&e.columns);
            }
        }
        proof {
            assert(all.subrange(0, 0) =~= Seq::<GroupDecl>::empty());
        }
        None
    }

    pub fn contains(&self, name: &String, depth: usize) -> (r: bool)
        ensures
            r == self@.contains_key((name@, depth as int)),
    {
        self.get(name, depth).is_some()
    }

    /// Appends a column to the field list of the group at (name, depth);
    /// without such a group, leaves the table unchanged.
    pub fn push_column(&mut self, name: &String, depth: usize, column: String)
        ensures
            final(self)@ == if old(self)@.contains_key((name@, depth as int)) {
                old(self)@.insert(
                    (name@, depth as int),
                    old(self)@[(name@, depth as int)].push(column@),
                )
            } else {
                old(self)@
            },
    {
        let ghost before = self.entries@;
        let found = self.get(name, depth);
        match found {
            Some(cols) => {
                let mut columns = clone_strings(cols);
                columns.push(column);
                proof {
                    assert(columns.deep_view() =~= old(self)@[(name@, depth as int)].push(
                        column@,
                    ));
                }
                self.entries.push(GroupDecl { name: name.clone(), depth, columns });
                proof {
                    assert(self.entries@.drop_last() =~= before);
                }
            },
            None => {},
        }
    }
}

/// A copy of a vector of strings that denotes the same sequence.
pub fn clone_strings(v: &Vec<String>) -> (r: Vec<String>)
    ensures
        r.deep_view() == v.deep_view(),
{
    let mut r: Vec<String> = Vec::new();
    let mut i: usize = 0;
    while i < v.len()
        invariant
            i <= v.len(),
            r@.len() == i as int,
            forall|j: int| 0 <= j < i ==> r@[j]@ == v@[j]@,
        decreases v.len() - i,
    {
        r.push(v[i].clone());
        i = i + 1;
    }
    proof {
        assert(r.deep_view() =~= v.deep_view());
    }
    r
}

/// One namespace binding: a URI and the alias (prefix) bound to it.
pub struct Namespace {
    pub uri: String,
    pub alias: String,
}

/// The URI-to-alias mapping a document's parser supplies, inverted from
/// the root element's declared namespace bindings.
pub struct NamespaceMap {
    pub entries: Vec<Namespace>,
}

pub open spec fn namespace_map_view(s: Seq<Namespace>) -> Map<Seq<char>, Seq<char>>
    decreases s,
{
    if s.len() == 0 {
        Map::empty()
    } else {
        namespace_map_view(s.drop_last()).insert(s.last().uri@, s.last().alias@)
    }
}

impl View for NamespaceMap {
    type V = Map<Seq<char>, Seq<char>>;

    open spec fn view(&self) -> Map<Seq<char>, Seq<char>> {
        namespace_map_view(self.entries@)
    }
}

impl NamespaceMap {
    pub fn new() -> (r: NamespaceMap)
        ensures
            r@ == Map::<Seq<char>, Seq<char>>::empty(),
    {
        NamespaceMap { entries: Vec::new() }
    }

    pub fn insert(&mut self, uri: String, alias: String)
        ensures
            final(self)@ == old(self)@.insert(uri@, alias@),
    {
        let ghost before = self.entries@;
        self.entries.push(Namespace { uri, alias });
        proof {
            assert(self.entries@.drop_last() =~= before);
        }
    }

    #[verifier::loop_isolation(false)]
    pub fn get<'a>(&'a self, uri: &String) -> (r: Option<&'a String>)
        ensures
            match r {
                Some(v) => self@.contains_key(uri@) && self@[uri@] == v@,
                None => !self@.contains_key(uri@),
            },
    {
        let ghost key = uri@;
        let ghost all = self.entries@;
        let mut i: usize = self.entries.len();
        proof {
            assert(all.subrange(0, all.len() as int) =~= all);
        }
        while i > 0
            invariant
                i <= self.entries.len(),
                all == self.entries@,
                namespace_map_view(all).contains_key(key) == namespace_map_view(
                    all.subrange(0, i as int),
                ).contains_key(key),
                namespace_map_view(all).contains_key(key) ==> namespace_map_view(all)[key]
                    == namespace_map_view(all.subrange(0, i as int))[key],
            decreases i,
        {
            i = i - 1;
            let e = &self.entries[i];
            proof {
                assert(all.subrange(0, i as int + 1).drop_last() =~= all.subrange(0, i as int));
                assert(all.subrange(0, i as int + 1).last() == all[i as int]);
            }
            if e.uri == *uri {
                return Some(&e.alias);
            }
        }
        proof {
            assert(all.subrange(0, 0) =~= Seq::<Namespace>::empty());
        }
        None
    }
}

/// The complete compiled configuration: the immutable mapping table.
pub struct Mapping {
    /// (path, depth) to output column name.
    pub matcher: PathMap,
    /// (path, depth) to required literal text.
    pub filters: PathMap,
    /// Output column names in declaration order, duplicates preserved.
    pub header: Vec<String>,
    /// The declared repeating groups.
    pub elements: Groups,
    /// Per depth, the number of directives whose paths match at that
    /// depth: the expected-field threshold of a repeating instance.
    pub levels: Vec<usize>,
}

/// The mathematical value of a [`Mapping`].
#[verifier::ext_equal]
pub ghost struct MappingV {
    pub matcher: Map<(Seq<char>, int), Seq<char>>,
    pub filters: Map<(Seq<char>, int), Seq<char>>,
    pub header: Seq<Seq<char>>,
    pub elements: Map<(Seq<char>, int), Seq<Seq<char>>>,
    pub levels: Seq<int>,
}

impl View for Mapping {
    type V = MappingV;

    open spec fn view(&self) -> MappingV {
        MappingV {
            matcher: self.matcher@,
            filters: self.filters@,
            header: self.header.deep_view(),
            elements: self.elements@,
            levels: self.levels@.map_values(|u: usize| u as int),
        }
    }
}

} // verus!
