//! The traversal engine: walks one document's element tree against the
//! compiled mapping table and emits one flushed record per completed
//! repeating-group instance.
//!
//! The walk is a two-mode state machine.  In descent mode it scans a set
//! of sibling runs for the first element that opens a declared group;
//! descending past non-group elements queues their children one depth
//! deeper.  In siblings mode it visits a run of same-tag siblings of an
//! opened group, matching each against the tables and descending into its
//! children.  After each node set the flush condition is checked: when
//! every declared group has populated at least one column and not every
//! populated set is empty, a record is emitted in header order and the
//! tracker is reset.

use crate::state::Match;
use crate::state::MatchV;
use crate::state::ParsedTracker;
use crate::state::ResultRow;
use crate::tables::GroupKey;
use crate::tables::Groups;
use crate::tables::Mapping;
use crate::tables::MappingV;
use crate::tables::NamespaceMap;
use crate::tables::PathMap;
use crate::tables::lemma_groups_view_dom;
use crate::xml::Element;
use crate::xml::ElementV;
use vstd::prelude::*;
use vstd::string::StrSliceExecFns;
use vstd::string::StringExecFns;

verus! {

broadcast use vstd::std_specs::vec::group_vec_axioms;

/// The per-group populated-column sets, as a mathematical value.
pub type ParsedV = Map<(Seq<char>, int), Set<Seq<char>>>;

/// The in-progress record, as a mathematical value.
pub type ResultV = Map<Seq<char>, MatchV>;

/// One emitted record: its field values in header order.
pub type RowV = Seq<Seq<char>>;

/// The namespace-qualified name an element matches under: the bound
/// alias, a colon and the local name where the element's namespace URI
/// is mapped, the bare local name otherwise.
pub open spec fn qualify(ns: Map<Seq<char>, Seq<char>>, name: Seq<char>, namespace: Option<Seq<char>>) -> Seq<char> {
    match namespace {
        Some(uri) => if ns.contains_key(uri) {
            ns[uri] + ":"@ + name
        } else {
            name
        },
        None => name,
    }
}

/// The matching path of an attribute: the element's qualified name with
/// a `/@name` suffix.
pub open spec fn attr_path(qname: Seq<char>, attr: Seq<char>) -> Seq<char> {
    qname + "/@"@ + attr
}

/// What one lookup-and-capture does: on a matcher hit, the captured text
/// overwrites the column in the record and the column is marked populated
/// for the recording group; otherwise nothing changes.
pub open spec fn record_spec(
    matcher: Map<(Seq<char>, int), Seq<char>>,
    path: Seq<char>,
    value: Seq<char>,
    rec: (Seq<char>, int),
    depth: int,
    parsed: ParsedV,
    result: ResultV,
) -> (ParsedV, ResultV, int) {
    if matcher.contains_key((path, depth)) {
        let column = matcher[(path, depth)];
        (
            parsed.insert(
                rec,
                (if parsed.contains_key(rec) {
                    parsed[rec]
                } else {
                    Set::empty()
                }).insert(column),
            ),
            result.insert(column, MatchV::Value(value)),
            1,
        )
    } else {
        (parsed, result, 0)
    }
}

/// Counts a hit against the depth's expected-field threshold, saturating
/// at the threshold: the count is only ever compared against it.
pub open spec fn bump(found: int, bound: int, hit: int) -> int {
    if hit == 1 && found < bound {
        found + 1
    } else {
        found
    }
}

/// Seeds each column as Unset, so an instance with no captured fields is
/// distinguishable from one not yet visited.
pub open spec fn seed_columns(result: ResultV, cols: Seq<Seq<char>>) -> ResultV
    decreases cols.len(),
{
    if cols.len() == 0 {
        result
    } else {
        seed_columns(result.insert(cols[0], MatchV::Nothing), cols.drop_first())
    }
}

/// Whether a filter at (path, depth) excludes the captured text.
pub open spec fn text_filtered(
    filters: Map<(Seq<char>, int), Seq<char>>,
    path: Seq<char>,
    text: Seq<char>,
    depth: int,
) -> bool {
    filters.contains_key((path, depth)) && filters[(path, depth)] != text
}

/// Whether some attribute of the element is excluded by a filter.
pub open spec fn attrs_filtered(
    filters: Map<(Seq<char>, int), Seq<char>>,
    qname: Seq<char>,
    attrs: Seq<crate::xml::AttributeV>,
    depth: int,
) -> bool {
    exists|k: int|
        0 <= k < attrs.len() && text_filtered(
            filters,
            attr_path(qname, (#[trigger] attrs[k]).name),
            attrs[k].value,
            depth,
        )
}

/// Whether the element is excluded: its text or any attribute fails an
/// equality filter.  An excluded element records nothing and its subtree
/// is not descended.
pub open spec fn element_filtered(
    filters: Map<(Seq<char>, int), Seq<char>>,
    qname: Seq<char>,
    e: ElementV,
    depth: int,
) -> bool {
    text_filtered(filters, qname, e.text, depth) || attrs_filtered(
        filters,
        qname,
        e.attributes,
        depth,
    )
}

/// Recording the element's attributes, in document order.
pub open spec fn attrs_record(
    matcher: Map<(Seq<char>, int), Seq<char>>,
    qname: Seq<char>,
    attrs: Seq<crate::xml::AttributeV>,
    rec: (Seq<char>, int),
    depth: int,
    parsed: ParsedV,
    result: ResultV,
    found: int,
    bound: int,
) -> (ParsedV, ResultV, int)
    decreases attrs.len(),
{
    if attrs.len() == 0 {
        (parsed, result, found)
    } else {
        let step = record_spec(
            matcher,
            attr_path(qname, attrs[0].name),
            attrs[0].value,
            rec,
            depth,
            parsed,
            result,
        );
        attrs_record(
            matcher,
            qname,
            attrs.drop_first(),
            rec,
            depth,
            step.0,
            step.1,
            bump(found, bound, step.2),
            bound,
        )
    }
}

/// What matching one element does while recording is active.
#[verifier::ext_equal]
pub ghost struct MatchOut {
    pub parsed: ParsedV,
    pub result: ResultV,
    pub found: int,
    pub filtered: bool,
}

/// Matching one element: seed its group's columns if it opens one; then,
/// unless a filter excludes it, capture its text and each attribute.
pub open spec fn match_element_spec(
    cfg: MappingV,
    ns: Map<Seq<char>, Seq<char>>,
    e: ElementV,
    rec: (Seq<char>, int),
    depth: int,
    parsed: ParsedV,
    result: ResultV,
    found: int,
    bound: int,
) -> MatchOut {
    let qname = qualify(ns, e.name, e.namespace);
    let seeded = if cfg.elements.contains_key((qname, depth)) {
        seed_columns(result, cfg.elements[(qname, depth)])
    } else {
        result
    };
    if element_filtered(cfg.filters, qname, e, depth) {
        MatchOut { parsed, result: seeded, found, filtered: true }
    } else {
        let text_step = record_spec(cfg.matcher, qname, e.text, rec, depth, parsed, seeded);
        let attrs_step = attrs_record(
            cfg.matcher,
            qname,
            e.attributes,
            rec,
            depth,
            text_step.0,
            text_step.1,
            bump(found, bound, text_step.2),
            bound,
        );
        MatchOut { parsed: attrs_step.0, result: attrs_step.1, found: attrs_step.2, filtered: false }
    }
}

/// Every declared group has an entry in the tracker: each has populated
/// at least one column since the document began (a flush empties the
/// sets but keeps the entries).
pub open spec fn groups_all_tracked(
    elements: Map<(Seq<char>, int), Seq<Seq<char>>>,
    parsed: ParsedV,
) -> bool {
    forall|k: (Seq<char>, int)| #[trigger] elements.contains_key(k) ==> parsed.contains_key(k)
}

/// Some group's populated set is nonempty.
pub open spec fn some_marked(parsed: ParsedV) -> bool {
    exists|k: (Seq<char>, int)|
        #![trigger parsed.contains_key(k)]
        parsed.contains_key(k) && parsed[k] != Set::<Seq<char>>::empty()
}

/// The tracker after a flush: the same groups, all sets emptied.
pub open spec fn cleared(parsed: ParsedV) -> ParsedV {
    Map::new(|k: (Seq<char>, int)| parsed.contains_key(k), |k: (Seq<char>, int)| Set::empty())
}

/// One record in header order: a column's captured text, or the empty
/// string where nothing was captured.
pub open spec fn row_of(header: Seq<Seq<char>>, result: ResultV) -> RowV {
    Seq::new(
        header.len(),
        |i: int|
            if result.contains_key(header[i]) {
                match result[header[i]] {
                    MatchV::Value(v) => v,
                    MatchV::Nothing => Seq::empty(),
                }
            } else {
                Seq::empty()
            },
    )
}

/// The flush decision after a node set: when every declared group has
/// populated at least one column and not every populated set is empty,
/// the record is emitted and the tracker reset; the record's values are
/// kept, supporting carry-forward of ancestor fields.
pub open spec fn flush_spec(cfg: MappingV, parsed: ParsedV, result: ResultV, rows: Seq<RowV>) -> (
    ParsedV,
    Seq<RowV>,
) {
    if groups_all_tracked(cfg.elements, parsed) && some_marked(parsed) {
        (cleared(parsed), rows.push(row_of(cfg.header, result)))
    } else {
        (parsed, rows)
    }
}

/// The qualified name an element matches under.
pub fn qualify_name(element: &Element, namespaces: &NamespaceMap) -> (q: String)
    ensures
        q@ == qualify(namespaces@, element@.name, element@.namespace),
{
    match &element.namespace {
        Some(uri) => match namespaces.get(uri) {
            Some(alias) => {
                let mut q = alias.clone();
                q.append(":");
                q.append(element.name.as_str());
                q
            },
            None => element.name.clone(),
        },
        None => element.name.clone(),
    }
}

/// The matching path of an attribute.
pub fn attr_path_exec(qname: &String, attr: &String) -> (p: String)
    ensures
        p@ == attr_path(qname@, attr@),
{
    let mut p = qname.clone();
    p.append("/@");
    p.append(attr.as_str());
    p
}

/// Looks the path up in the matcher; on a hit, writes the captured text
/// into the record, marks the column populated for the recording group,
/// and reports one field found.
pub fn record(
    xml_name: &String,
    xml_value: &String,
    recording: &GroupKey,
    matcher: &PathMap,
    parsed: &mut ParsedTracker,
    result: &mut ResultRow,
    depth: usize,
) -> (found: usize)
    requires
        old(parsed).wf(),
    ensures
        final(parsed).wf(),
        ({
            let step = record_spec(
                matcher@,
                xml_name@,
                xml_value@,
                recording@,
                depth as int,
                old(parsed)@,
                old(result)@,
            );
            final(parsed)@ == step.0 && final(result)@ == step.1 && found as int == step.2
        }),
        found <= 1,
{
    match matcher.get(xml_name, depth) {
        Some(column) => {
            let col = column.clone();
            result.insert(col.clone(), Match::Value(xml_value.clone()));
            parsed.mark(recording, &col);
            1
        },
        None => 0,
    }
}

/// Whether a filter excludes the element.
#[verifier::loop_isolation(false)]
fn element_filtered_exec(cfg: &Mapping, qname: &String, element: &Element, depth: usize) -> (b:
    bool)
    ensures
        b == element_filtered(cfg@.filters, qname@, element@, depth as int),
{
    match cfg.filters.get(qname, depth) {
        Some(literal) => {
            if !(element.text == *literal) {
                return true;
            }
        },
        None => {},
    }
    let mut k: usize = 0;
    while k < element.attributes.len()
        invariant
            k <= element.attributes.len(),
            !text_filtered(cfg@.filters, qname@, element@.text, depth as int),
            forall|j: int|
                0 <= j < k ==> !text_filtered(
                    cfg@.filters,
                    attr_path(qname@, (#[trigger] element@.attributes[j]).name),
                    element@.attributes[j].value,
                    depth as int,
                ),
        decreases element.attributes.len() - k,
    {
        let a = &element.attributes[k];
        let path = attr_path_exec(qname, &a.name);
        match cfg.filters.get(&path, depth) {
            Some(literal) => {
                if !(a.value == *literal) {
                    proof {
                        assert(element@.attributes[k as int].name == a.name@);
                        assert(text_filtered(
                            cfg@.filters,
                            attr_path(qname@, element@.attributes[k as int].name),
                            element@.attributes[k as int].value,
                            depth as int,
                        ));
                    }
                    return true;
                }
            },
            None => {},
        }
        k = k + 1;
    }
    false
}

/// Matches one element against the tables: seeds its group's columns if
/// it opens one, then captures its text and attributes unless a filter
/// excludes it.  Returns the updated field count and whether the element
/// was excluded.
#[verifier::loop_isolation(false)]
pub fn match_element(
    element: &Element,
    cfg: &Mapping,
    namespaces: &NamespaceMap,
    recording: &GroupKey,
    parsed: &mut ParsedTracker,
    result: &mut ResultRow,
    found: usize,
    bound: usize,
    depth: usize,
) -> (r: (usize, bool))
    requires
        old(parsed).wf(),
        found <= bound,
    ensures
        final(parsed).wf(),
        r.0 <= bound,
        ({
            let m = match_element_spec(
                cfg@,
                namespaces@,
                element@,
                recording@,
                depth as int,
                old(parsed)@,
                old(result)@,
                found as int,
                bound as int,
            );
            final(parsed)@ == m.parsed && final(result)@ == m.result && r.0 as int == m.found
                && r.1 == m.filtered
        }),
{
    let ghost m = match_element_spec(
        cfg@,
        namespaces@,
        element@,
        recording@,
        depth as int,
        old(parsed)@,
        old(result)@,
        found as int,
        bound as int,
    );
    let qname = qualify_name(element, namespaces);
    match cfg.elements.get(&qname, depth) {
        Some(cols) => {
            let ghost cols_v = cfg@.elements[(qname@, depth as int)];
            let ghost r0 = result@;
            proof {
                assert(cols_v.subrange(0, cols_v.len() as int) =~= cols_v);
            }
            let mut c: usize = 0;
            while c < cols.len()
                invariant
                    c <= cols.len(),
                    cols_v == cols.deep_view(),
                    seed_columns(result@, cols_v.subrange(c as int, cols_v.len() as int))
                        == seed_columns(r0, cols_v),
                decreases cols.len() - c,
            {
                let ghost pre = result@;
                let ghost rest = cols_v.subrange(c as int, cols_v.len() as int);
                result.insert(cols[c].clone(), Match::Nothing);
                proof {
                    assert(rest[0] == cols_v[c as int]);
                    assert(rest.drop_first() =~= cols_v.subrange(c as int + 1, cols_v.len() as int));
                    assert(seed_columns(pre, rest) == seed_columns(
                        result@,
                        cols_v.subrange(c as int + 1, cols_v.len() as int),
                    ));
                }
                c = c + 1;
            }
            proof {
                assert(cols_v.subrange(cols_v.len() as int, cols_v.len() as int) =~= Seq::<
                    Seq<char>,
                >::empty());
            }
        },
        None => {},
    }
    if element_filtered_exec(cfg, &qname, element, depth) {
        return (found, true);
    }
    let hit = record(&qname, &element.text, recording, &cfg.matcher, parsed, result, depth);
    let mut f = found;
    if hit == 1 && f < bound {
        f = f + 1;
    }
    let ghost attrs_v = element@.attributes;
    let ghost target = attrs_record(
        cfg@.matcher,
        qname@,
        attrs_v,
        recording@,
        depth as int,
        parsed@,
        result@,
        f as int,
        bound as int,
    );
    proof {
        assert(attrs_v.subrange(0, attrs_v.len() as int) =~= attrs_v);
    }
    let mut k: usize = 0;
    while k < element.attributes.len()
        invariant
            k <= element.attributes.len(),
            parsed.wf(),
            f <= bound,
            attrs_record(
                cfg@.matcher,
                qname@,
                attrs_v.subrange(k as int, attrs_v.len() as int),
                recording@,
                depth as int,
                parsed@,
                result@,
                f as int,
                bound as int,
            ) == target,
        decreases element.attributes.len() - k,
    {
        let ghost rest = attrs_v.subrange(k as int, attrs_v.len() as int);
        let a = &element.attributes[k];
        let path = attr_path_exec(&qname, &a.name);
        let hit = record(&path, &a.value, recording, &cfg.matcher, parsed, result, depth);
        if hit == 1 && f < bound {
            f = f + 1;
        }
        proof {
            assert(rest[0] == attrs_v[k as int]);
            assert(rest.drop_first() =~= attrs_v.subrange(k as int + 1, attrs_v.len() as int));
        }
        k = k + 1;
    }
    proof {
        assert(attrs_v.subrange(attrs_v.len() as int, attrs_v.len() as int) =~= Seq::<
            crate::xml::AttributeV,
        >::empty());
    }
    (f, false)
}

/// The record in header order, ready to emit.
#[verifier::loop_isolation(false)]
pub fn build_row(header: &Vec<String>, result: &ResultRow) -> (row: Vec<String>)
    ensures
        row.deep_view() == row_of(header.deep_view(), result@),
{
    let mut row: Vec<String> = Vec::new();
    let mut i: usize = 0;
    while i < header.len()
        invariant
            i <= header.len(),
            row.deep_view() =~= row_of(header.deep_view(), result@).subrange(0, i as int),
        decreases header.len() - i,
    {
        let value = match result.get(&header[i]) {
            Some(m) => match m {
                Match::Value(v) => v.clone(),
                Match::Nothing => String::new(),
            },
            None => String::new(),
        };
        row.push(value);
        proof {
            assert(row.deep_view() =~= row_of(header.deep_view(), result@).subrange(
                0,
                i as int + 1,
            ));
        }
        i = i + 1;
    }
    proof {
        assert(row_of(header.deep_view(), result@).subrange(
            0,
            header.deep_view().len() as int,
        ) =~= row_of(header.deep_view(), result@));
    }
    row
}

/// Whether every declared group has an entry in the tracker.
#[verifier::loop_isolation(false)]
fn groups_covered(elements: &Groups, parsed: &ParsedTracker) -> (b: bool)
    ensures
        b == groups_all_tracked(elements@, parsed@),
{
    let mut i: usize = 0;
    while i < elements.entries.len()
        invariant
            i <= elements.entries.len(),
            forall|j: int|
                0 <= j < i ==> parsed@.contains_key(
                    ((#[trigger] elements.entries@[j]).name@, elements.entries@[j].depth as int),
                ),
        decreases elements.entries.len() - i,
    {
        let e = &elements.entries[i];
        let key = GroupKey { name: e.name.clone(), depth: e.depth };
        if !parsed.contains_key(&key) {
            proof {
                lemma_groups_view_dom(elements.entries@, (e.name@, e.depth as int));
                assert(elements@.contains_key((e.name@, e.depth as int)));
            }
            return false;
        }
        i = i + 1;
    }
    proof {
        assert forall|k: (Seq<char>, int)| #[trigger]
            elements@.contains_key(k) implies parsed@.contains_key(k) by {
            lemma_groups_view_dom(elements.entries@, k);
            let j = choose|j: int|
                0 <= j < elements.entries@.len() && (
                #[trigger] elements.entries@[j].name@,
                elements.entries@[j].depth as int,
                ) == k;
            assert(parsed@.contains_key(
                (elements.entries@[j].name@, elements.entries@[j].depth as int),
            ));
        }
    }
    true
}

/// Applies the flush condition: emits the record and resets the tracker
/// when every group has populated at least one column and not all
/// populated sets are empty.
pub fn flush_rows(
    cfg: &Mapping,
    parsed: &mut ParsedTracker,
    result: &ResultRow,
    rows: &mut Vec<Vec<String>>,
)
    requires
        old(parsed).wf(),
    ensures
        final(parsed).wf(),
        ({
            let f = flush_spec(cfg@, old(parsed)@, result@, old(rows).deep_view());
            final(parsed)@ == f.0 && final(rows).deep_view() == f.1
        }),
{
    let ghost rows0 = rows.deep_view();
    if groups_covered(&cfg.elements, parsed) && parsed.any_marked() {
        let row = build_row(&cfg.header, result);
        rows.push(row);
        parsed.clear();
        proof {
            assert(parsed@ =~= cleared(old(parsed)@));
            assert(rows.deep_view() =~= rows0.push(row_of(cfg@.header, result@)));
        }
    }
}

/// Whether two elements carry the same tag: local name and namespace.
pub open spec fn same_tag(a: ElementV, b: ElementV) -> bool {
    a.name == b.name && a.namespace == b.namespace
}

/// The elements of a run sharing the given element's tag, in order.
pub open spec fn filter_same_tag(proto: ElementV, s: Seq<ElementV>) -> Seq<ElementV>
    decreases s.len(),
{
    if s.len() == 0 {
        Seq::empty()
    } else {
        let rest = filter_same_tag(proto, s.drop_first());
        if same_tag(proto, s[0]) {
            seq![s[0]] + rest
        } else {
            rest
        }
    }
}

/// Keeping only same-tag elements cannot grow a run.
pub proof fn lemma_filter_same_tag_size(proto: ElementV, s: Seq<ElementV>)
    ensures
        crate::xml::elems_size(filter_same_tag(proto, s)) <= crate::xml::elems_size(s),
    decreases s.len(),
{
    if s.len() > 0 {
        lemma_filter_same_tag_size(proto, s.drop_first());
        if same_tag(proto, s[0]) {
            crate::xml::lemma_elems_size_cons(s[0], filter_same_tag(proto, s.drop_first()));
        }
    }
}

/// What the descent scan of a node set produces: the state after matching,
/// the children runs queued for one depth deeper, and the first opened
/// group with its same-tag sibling run, if one was found.
#[verifier::ext_equal]
pub ghost struct ScanOut {
    pub parsed: ParsedV,
    pub result: ResultV,
    pub found: int,
    pub queued: Seq<Seq<ElementV>>,
    pub hit: Option<(Seq<ElementV>, (Seq<char>, int))>,
}

/// Scans sibling runs in descent mode from position (i, j): the first
/// element opening a declared group stops the scan; any other element is
/// matched while recording is active and under the depth's expected-field
/// threshold, and its children are queued unless a filter excludes it.
pub open spec fn descent_scan(
    runs: Seq<Seq<ElementV>>,
    i: int,
    j: int,
    cfg: MappingV,
    ns: Map<Seq<char>, Seq<char>>,
    rec: Option<(Seq<char>, int)>,
    depth: int,
    parsed: ParsedV,
    result: ResultV,
    found: int,
    queued: Seq<Seq<ElementV>>,
) -> ScanOut
    decreases
            runs.len() - i,
            (if 0 <= i < runs.len() && j <= runs[i].len() {
                runs[i].len() - j
            } else {
                0int
            }),
{
    if i < 0 || j < 0 || i >= runs.len() {
        ScanOut { parsed, result, found, queued, hit: None }
    } else if j >= runs[i].len() {
        descent_scan(runs, i + 1, 0, cfg, ns, rec, depth, parsed, result, found, queued)
    } else {
        let e = runs[i][j];
        let qname = qualify(ns, e.name, e.namespace);
        if cfg.elements.contains_key((qname, depth)) {
            ScanOut {
                parsed,
                result,
                found,
                queued,
                hit: Some(
                    (
                        filter_same_tag(e, runs[i].subrange(j, runs[i].len() as int)),
                        (qname, depth),
                    ),
                ),
            }
        } else if rec is Some && found < cfg.levels[depth - 1] {
            let m = match_element_spec(
                cfg,
                ns,
                e,
                rec->0,
                depth,
                parsed,
                result,
                found,
                cfg.levels[depth - 1],
            );
            if m.filtered {
                descent_scan(runs, i, j + 1, cfg, ns, rec, depth, m.parsed, m.result, m.found, queued)
            } else {
                descent_scan(
                    runs,
                    i,
                    j + 1,
                    cfg,
                    ns,
                    rec,
                    depth,
                    m.parsed,
                    m.result,
                    m.found,
                    if e.children.len() > 0 {
                        queued.push(e.children)
                    } else {
                        queued
                    },
                )
            }
        } else {
            descent_scan(
                runs,
                i,
                j + 1,
                cfg,
                ns,
                rec,
                depth,
                parsed,
                result,
                found,
                if e.children.len() > 0 {
                    queued.push(e.children)
                } else {
                    queued
                },
            )
        }
    }
}

/// The size of what remains of the runs from position (i, j).
pub open spec fn suffix_size(runs: Seq<Seq<ElementV>>, i: int, j: int) -> int {
    if i < 0 || i >= runs.len() {
        0
    } else {
        (if 0 <= j <= runs[i].len() {
            crate::xml::elems_size(runs[i].subrange(j, runs[i].len() as int)) as int
        } else {
            0
        }) + crate::xml::runs_size(runs.subrange(i + 1, runs.len() as int)) as int
    }
}

pub proof fn lemma_suffix_size_step(runs: Seq<Seq<ElementV>>, i: int, j: int)
    requires
        0 <= i < runs.len(),
        0 <= j < runs[i].len(),
    ensures
        suffix_size(runs, i, j) == crate::xml::elem_size(runs[i][j]) + suffix_size(runs, i, j + 1),
{
    crate::xml::lemma_elems_size_suffix(runs[i], j);
}

pub proof fn lemma_suffix_size_skip(runs: Seq<Seq<ElementV>>, i: int, j: int)
    requires
        0 <= i < runs.len(),
        j >= runs[i].len(),
    ensures
        suffix_size(runs, i, j) == suffix_size(runs, i + 1, 0),
{
    let rest = runs.subrange(i + 1, runs.len() as int);
    if j == runs[i].len() {
        assert(runs[i].subrange(j, runs[i].len() as int) =~= Seq::<ElementV>::empty());
        assert(crate::xml::elems_size(Seq::<ElementV>::empty()) == 0);
    }
    if i + 1 < runs.len() {
        assert(rest[0] == runs[i + 1]);
        assert(rest.drop_first() =~= runs.subrange(i + 2, runs.len() as int));
        crate::xml::lemma_elems_size_whole(runs[i + 1]);
    } else {
        assert(rest =~= Seq::<Seq<ElementV>>::empty());
        assert(crate::xml::runs_size(Seq::<Seq<ElementV>>::empty()) == 0);
    }
}

pub proof fn lemma_suffix_size_zero(runs: Seq<Seq<ElementV>>)
    ensures
        suffix_size(runs, 0, 0) == crate::xml::runs_size(runs),
{
    if runs.len() == 0 {
    } else {
        assert(runs.subrange(1, runs.len() as int) =~= runs.drop_first());
        crate::xml::lemma_elems_size_whole(runs[0]);
    }
}

pub proof fn lemma_suffix_size_nonneg(runs: Seq<Seq<ElementV>>, i: int, j: int)
    ensures
        suffix_size(runs, i, j) >= 0,
{
}

/// Accounting for the scan: what it queues weighs no more than what it
/// walked over, counting one for each queued run, and a found sibling run
/// weighs no more than the remaining forest.
pub proof fn lemma_descent_scan_size(
    runs: Seq<Seq<ElementV>>,
    i: int,
    j: int,
    cfg: MappingV,
    ns: Map<Seq<char>, Seq<char>>,
    rec: Option<(Seq<char>, int)>,
    depth: int,
    parsed: ParsedV,
    result: ResultV,
    found: int,
    queued: Seq<Seq<ElementV>>,
)
    ensures
        ({
            let out = descent_scan(runs, i, j, cfg, ns, rec, depth, parsed, result, found, queued);
            &&& crate::xml::runs_size(out.queued) + out.queued.len() <= crate::xml::runs_size(
                queued,
            ) + queued.len() + suffix_size(runs, i, j)
            &&& out.queued.len() >= queued.len()
            &&& (out.hit is Some ==> crate::xml::elems_size((out.hit->0).0) <= suffix_size(
                runs,
                i,
                j,
            ))
        }),
    decreases
            runs.len() - i,
            (if 0 <= i < runs.len() && j <= runs[i].len() {
                runs[i].len() - j
            } else {
                0int
            }),
{
    lemma_suffix_size_nonneg(runs, i, j);
    if i < 0 || j < 0 || i >= runs.len() {
    } else if j >= runs[i].len() {
        lemma_descent_scan_size(runs, i + 1, 0, cfg, ns, rec, depth, parsed, result, found, queued);
        lemma_suffix_size_skip(runs, i, j);
    } else {
        let e = runs[i][j];
        let qname = qualify(ns, e.name, e.namespace);
        lemma_suffix_size_step(runs, i, j);
        lemma_suffix_size_nonneg(runs, i, j + 1);
        if cfg.elements.contains_key((qname, depth)) {
            lemma_filter_same_tag_size(e, runs[i].subrange(j, runs[i].len() as int));
            assert(crate::xml::runs_size(runs.subrange(i + 1, runs.len() as int)) >= 0);
        } else {
            let push_q = if e.children.len() > 0 {
                queued.push(e.children)
            } else {
                queued
            };
            if e.children.len() > 0 {
                crate::xml::lemma_runs_size_push(queued, e.children);
            }
            if rec is Some && found < cfg.levels[depth - 1] {
                let m = match_element_spec(
                    cfg,
                    ns,
                    e,
                    rec->0,
                    depth,
                    parsed,
                    result,
                    found,
                    cfg.levels[depth - 1],
                );
                if m.filtered {
                    lemma_descent_scan_size(
                        runs,
                        i,
                        j + 1,
                        cfg,
                        ns,
                        rec,
                        depth,
                        m.parsed,
                        m.result,
                        m.found,
                        queued,
                    );
                } else {
                    lemma_descent_scan_size(
                        runs,
                        i,
                        j + 1,
                        cfg,
                        ns,
                        rec,
                        depth,
                        m.parsed,
                        m.result,
                        m.found,
                        push_q,
                    );
                }
            } else {
                lemma_descent_scan_size(
                    runs,
                    i,
                    j + 1,
                    cfg,
                    ns,
                    rec,
                    depth,
                    parsed,
                    result,
                    found,
                    push_q,
                );
            }
        }
    }
}

/// One run holding one forest.
pub proof fn lemma_runs_size_single(r: Seq<ElementV>)
    ensures
        crate::xml::runs_size(seq![r]) == crate::xml::elems_size(r),
{
    assert(seq![r][0] == r);
    assert(seq![r].drop_first() =~= Seq::<Seq<ElementV>>::empty());
    assert(crate::xml::runs_size(Seq::<Seq<ElementV>>::empty()) == 0);
}

/// A run weighs no more than the runs it stands in.
pub proof fn lemma_run_le_runs(rs: Seq<Seq<ElementV>>, i: int)
    requires
        0 <= i < rs.len(),
    ensures
        crate::xml::elems_size(rs[i]) <= crate::xml::runs_size(rs),
    decreases i,
{
    if i > 0 {
        lemma_run_le_runs(rs.drop_first(), i - 1);
        assert(rs.drop_first()[i - 1] == rs[i]);
    }
}

/// An element weighs no more than the runs it stands in.
pub proof fn lemma_elem_size_in_runs(runs: Seq<Seq<ElementV>>, i: int, j: int)
    requires
        0 <= i < runs.len(),
        0 <= j < runs[i].len(),
    ensures
        crate::xml::elem_size(runs[i][j]) <= crate::xml::runs_size(runs),
{
    lemma_run_le_runs(runs, i);
    crate::xml::lemma_elems_size_whole(runs[i]);
    crate::xml::lemma_elems_size_suffix_le(runs[i], 0, j);
    crate::xml::lemma_elems_size_suffix(runs[i], j);
}

/// What one traversal call produces: the final state and the records it
/// emitted, in order.
#[verifier::ext_equal]
pub ghost struct EngineOut {
    pub parsed: ParsedV,
    pub result: ResultV,
    pub rows: Seq<RowV>,
}

/// The two-mode traversal.  In descent mode the node set is scanned for
/// the first element opening a declared group; if one is found, its
/// same-tag sibling run is walked in siblings mode at the same depth,
/// and otherwise the queued children of the scanned elements are
/// descended one depth deeper; then the flush condition is checked.  In
/// siblings mode each sibling is matched and its children descended, and
/// the flush condition is checked after the run.
pub open spec fn traverse_spec(
    nodes: Seq<Seq<ElementV>>,
    cfg: MappingV,
    ns: Map<Seq<char>, Seq<char>>,
    parsed: ParsedV,
    result: ResultV,
    rec: Option<(Seq<char>, int)>,
    siblings: bool,
    depth: int,
) -> EngineOut
    decreases
            crate::xml::runs_size(nodes),
            (if siblings {
                1int
            } else {
                2int
            }),
            0int,
            0int,
    via traverse_spec_dec
{
    if depth < 1 || depth > cfg.levels.len() {
        EngineOut { parsed, result, rows: Seq::empty() }
    } else if siblings {
        let walked = sib_loop(nodes, 0, 0, cfg, ns, parsed, result, rec, depth);
        let flushed = flush_spec(cfg, walked.parsed, walked.result, walked.rows);
        EngineOut { parsed: flushed.0, result: walked.result, rows: flushed.1 }
    } else {
        let scan = descent_scan(nodes, 0, 0, cfg, ns, rec, depth, parsed, result, 0, Seq::empty());
        let after_group = match scan.hit {
            Some(h) => traverse_spec(
                seq![h.0],
                cfg,
                ns,
                scan.parsed,
                scan.result,
                Some(h.1),
                true,
                depth,
            ),
            None => EngineOut { parsed: scan.parsed, result: scan.result, rows: Seq::empty() },
        };
        let after_children = if scan.hit is None && scan.queued.len() > 0 {
            traverse_spec(
                scan.queued,
                cfg,
                ns,
                after_group.parsed,
                after_group.result,
                rec,
                false,
                depth + 1,
            )
        } else {
            EngineOut { parsed: after_group.parsed, result: after_group.result, rows: Seq::empty() }
        };
        let flushed = flush_spec(
            cfg,
            after_children.parsed,
            after_children.result,
            after_group.rows + after_children.rows,
        );
        EngineOut { parsed: flushed.0, result: after_children.result, rows: flushed.1 }
    }
}

/// Walks a run of same-tag siblings: each is matched while recording is
/// active, and, unless a filter excluded it, its children are descended
/// one depth deeper under the same recording context.
pub open spec fn sib_loop(
    runs: Seq<Seq<ElementV>>,
    i: int,
    j: int,
    cfg: MappingV,
    ns: Map<Seq<char>, Seq<char>>,
    parsed: ParsedV,
    result: ResultV,
    rec: Option<(Seq<char>, int)>,
    depth: int,
) -> EngineOut
    decreases
            crate::xml::runs_size(runs),
            0int,
            runs.len() - i,
            (if 0 <= i < runs.len() && j <= runs[i].len() {
                runs[i].len() - j
            } else {
                0int
            }),
    via sib_loop_dec
{
    if i < 0 || j < 0 || i >= runs.len() {
        EngineOut { parsed, result, rows: Seq::empty() }
    } else if j >= runs[i].len() {
        sib_loop(runs, i + 1, 0, cfg, ns, parsed, result, rec, depth)
    } else {
        let e = runs[i][j];
        let m = match rec {
            Some(k) => match_element_spec(cfg, ns, e, k, depth, parsed, result, 0, 0),
            None => MatchOut { parsed, result, found: 0, filtered: false },
        };
        if !m.filtered && e.children.len() > 0 {
            let sub = traverse_spec(
                seq![e.children],
                cfg,
                ns,
                m.parsed,
                m.result,
                rec,
                false,
                depth + 1,
            );
            let rest = sib_loop(runs, i, j + 1, cfg, ns, sub.parsed, sub.result, rec, depth);
            EngineOut { parsed: rest.parsed, result: rest.result, rows: sub.rows + rest.rows }
        } else {
            sib_loop(runs, i, j + 1, cfg, ns, m.parsed, m.result, rec, depth)
        }
    }
}

#[via_fn]
proof fn traverse_spec_dec(
    nodes: Seq<Seq<ElementV>>,
    cfg: MappingV,
    ns: Map<Seq<char>, Seq<char>>,
    parsed: ParsedV,
    result: ResultV,
    rec: Option<(Seq<char>, int)>,
    siblings: bool,
    depth: int,
) {
    if !(depth < 1 || depth > cfg.levels.len()) && !siblings {
        let scan = descent_scan(nodes, 0, 0, cfg, ns, rec, depth, parsed, result, 0, Seq::empty());
        lemma_descent_scan_size(nodes, 0, 0, cfg, ns, rec, depth, parsed, result, 0, Seq::empty());
        lemma_suffix_size_zero(nodes);
        assert(crate::xml::runs_size(Seq::<Seq<ElementV>>::empty()) == 0);
        match scan.hit {
            Some(h) => {
                lemma_runs_size_single(h.0);
            },
            None => {},
        }
    }
}

#[via_fn]
proof fn sib_loop_dec(
    runs: Seq<Seq<ElementV>>,
    i: int,
    j: int,
    cfg: MappingV,
    ns: Map<Seq<char>, Seq<char>>,
    parsed: ParsedV,
    result: ResultV,
    rec: Option<(Seq<char>, int)>,
    depth: int,
) {
    if !(i < 0 || j < 0 || i >= runs.len()) && j < runs[i].len() {
        let e = runs[i][j];
        lemma_elem_size_in_runs(runs, i, j);
        lemma_runs_size_single(e.children);
    }
}

/// The recording context as a mathematical value.
pub open spec fn rec_view(recording: Option<&GroupKey>) -> Option<(Seq<char>, int)> {
    match recording {
        Some(k) => Some(k@),
        None => None,
    }
}

/// A copy of a vector of elements that denotes the same forest.
pub fn clone_elements(v: &Vec<Element>) -> (r: Vec<Element>)
    ensures
        r.deep_view() == v.deep_view(),
{
    let mut r: Vec<Element> = Vec::new();
    let mut i: usize = 0;
    while i < v.len()
        invariant
            i <= v.len(),
            r@.len() == i as int,
            forall|k: int|
                0 <= k < i ==> crate::xml::elem_view(#[trigger] r@[k]) == crate::xml::elem_view(
                    v@[k],
                ),
        decreases v.len() - i,
    {
        let d = v[i].duplicate();
        r.push(d);
        i = i + 1;
    }
    proof {
        assert(r.deep_view() =~= v.deep_view());
    }
    r
}

fn same_tag_exec(a: &Element, b: &Element) -> (r: bool)
    ensures
        r == same_tag(a@, b@),
{
    if !(a.name == b.name) {
        return false;
    }
    match (&a.namespace, &b.namespace) {
        (Option::None, Option::None) => true,
        (Option::Some(x), Option::Some(y)) => *x == *y,
        _ => false,
    }
}

/// The element at `j` and its following same-tag siblings, copied out of
/// the run in document order.
#[verifier::loop_isolation(false)]
pub fn collect_same_tag(run: &Vec<Element>, j: usize) -> (r: Vec<Element>)
    requires
        j < run@.len(),
    ensures
        r.deep_view() == filter_same_tag(
            run.deep_view()[j as int],
            run.deep_view().subrange(j as int, run.deep_view().len() as int),
        ),
{
    let ghost run_v = run.deep_view();
    let ghost target = filter_same_tag(
        run_v[j as int],
        run_v.subrange(j as int, run_v.len() as int),
    );
    let mut r: Vec<Element> = Vec::new();
    let mut k: usize = j;
    proof {
        assert(r.deep_view() =~= Seq::<ElementV>::empty());
        assert(Seq::<ElementV>::empty() + target =~= target);
    }
    while k < run.len()
        invariant
            j <= k <= run@.len(),
            target == r.deep_view() + filter_same_tag(
                run_v[j as int],
                run_v.subrange(k as int, run_v.len() as int),
            ),
        decreases run@.len() - k,
    {
        let ghost rest = run_v.subrange(k as int, run_v.len() as int);
        let ghost tail = filter_same_tag(
            run_v[j as int],
            run_v.subrange(k as int + 1, run_v.len() as int),
        );
        proof {
            assert(rest[0] == run_v[k as int]);
            assert(rest.drop_first() =~= run_v.subrange(k as int + 1, run_v.len() as int));
        }
        if same_tag_exec(&run[j], &run[k]) {
            let d = run[k].duplicate();
            let ghost r_before = r.deep_view();
            r.push(d);
            proof {
                assert(r.deep_view() =~= r_before.push(run_v[k as int]));
                assert(r_before + (seq![run_v[k as int]] + tail) =~= r_before.push(
                    run_v[k as int],
                ) + tail);
            }
        }
        k = k + 1;
    }
    proof {
        assert(run_v.subrange(run_v.len() as int, run_v.len() as int) =~= Seq::<ElementV>::empty());
        assert(r.deep_view() + Seq::<ElementV>::empty() =~= r.deep_view());
    }
    r
}

/// Walks one node set against the tables, in descent or siblings mode,
/// appending every record the walk flushes.  The whole behaviour is that
/// of [`traverse_spec`] on the node set's denotation.
#[verifier::loop_isolation(false)]
#[verifier::rlimit(50)]
pub fn traverse(
    nodes: Vec<Vec<Element>>,
    cfg: &Mapping,
    namespaces: &NamespaceMap,
    parsed: &mut ParsedTracker,
    result: &mut ResultRow,
    rows: &mut Vec<Vec<String>>,
    recording: Option<&GroupKey>,
    siblings: bool,
    depth: usize,
)
    requires
        old(parsed).wf(),
    ensures
        final(parsed).wf(),
        ({
            let o = traverse_spec(
                nodes.deep_view(),
                cfg@,
                namespaces@,
                old(parsed)@,
                old(result)@,
                rec_view(recording),
                siblings,
                depth as int,
            );
            final(parsed)@ == o.parsed && final(result)@ == o.result && final(rows).deep_view()
                == old(rows).deep_view() + o.rows
        }),
    decreases
            crate::xml::runs_size(nodes.deep_view()),
            (if siblings {
                1int
            } else {
                2int
            }),
            0int,
            0int,
{
    broadcast use crate::xml::lemma_deep_view_elems;

    let ghost nodes_v = nodes.deep_view();
    let ghost cfg_v = cfg@;
    let ghost ns_v = namespaces@;
    let ghost rec_v = rec_view(recording);
    let ghost o = traverse_spec(
        nodes_v,
        cfg_v,
        ns_v,
        old(parsed)@,
        old(result)@,
        rec_v,
        siblings,
        depth as int,
    );
    let ghost rows0 = rows.deep_view();
    if depth == 0 || depth > cfg.levels.len() {
        proof {
            assert(rows.deep_view() =~= rows0 + o.rows);
        }
        return;
    }
    if siblings {
        let ghost target = sib_loop(
            nodes_v,
            0,
            0,
            cfg_v,
            ns_v,
            old(parsed)@,
            old(result)@,
            rec_v,
            depth as int,
        );
        let mut i: usize = 0;
        while i < nodes.len()
            invariant
                i <= nodes@.len(),
                parsed.wf(),
                ({
                    let cont = sib_loop(
                        nodes_v,
                        i as int,
                        0,
                        cfg_v,
                        ns_v,
                        parsed@,
                        result@,
                        rec_v,
                        depth as int,
                    );
                    target.parsed == cont.parsed && target.result == cont.result && rows0
                        + target.rows == rows.deep_view() + cont.rows
                }),
            decreases nodes@.len() - i,
        {
            let mut j: usize = 0;
            while j < nodes[i].len()
                invariant
                    i < nodes@.len(),
                    j <= nodes@[i as int]@.len(),
                    parsed.wf(),
                    ({
                        let cont = sib_loop(
                            nodes_v,
                            i as int,
                            j as int,
                            cfg_v,
                            ns_v,
                            parsed@,
                            result@,
                            rec_v,
                            depth as int,
                        );
                        target.parsed == cont.parsed && target.result == cont.result && rows0
                            + target.rows == rows.deep_view() + cont.rows
                    }),
                decreases nodes@[i as int]@.len() - j,
            {
                let ghost e_v = nodes_v[i as int][j as int];
                let ghost step_parsed = parsed@;
                let ghost step_result = result@;
                let ghost step_rows = rows.deep_view();
                let ghost m = match rec_v {
                    Some(k) => match_element_spec(
                        cfg_v,
                        ns_v,
                        e_v,
                        k,
                        depth as int,
                        step_parsed,
                        step_result,
                        0,
                        0,
                    ),
                    None => MatchOut {
                        parsed: step_parsed,
                        result: step_result,
                        found: 0,
                        filtered: false,
                    },
                };
                let element = &nodes[i][j];
                proof {
                    assert(element@ == e_v);
                }
                let mut excluded = false;
                match recording {
                    Some(key) => {
                        let stepped = match_element(
                            element,
                            cfg,
                            namespaces,
                            key,
                            parsed,
                            result,
                            0,
                            0,
                            depth,
                        );
                        excluded = stepped.1;
                    },
                    None => {},
                }
                proof {
                    assert(parsed@ == m.parsed && result@ == m.result && excluded == m.filtered);
                }
                if !excluded && element.children.len() > 0 {
                    let kids = clone_elements(&element.children);
                    let mut sub_nodes: Vec<Vec<Element>> = Vec::new();
                    sub_nodes.push(kids);
                    proof {
                        assert(sub_nodes.deep_view() =~= seq![e_v.children]);
                        lemma_elem_size_in_runs(nodes_v, i as int, j as int);
                        lemma_runs_size_single(e_v.children);
                    }
                    let ghost sub = traverse_spec(
                        seq![e_v.children],
                        cfg_v,
                        ns_v,
                        m.parsed,
                        m.result,
                        rec_v,
                        false,
                        depth as int + 1,
                    );
                    if depth < cfg.levels.len() {
                        traverse(
                            sub_nodes,
                            cfg,
                            namespaces,
                            parsed,
                            result,
                            rows,
                            recording,
                            false,
                            depth + 1,
                        );
                    }
                    proof {
                        assert(parsed@ == sub.parsed && result@ == sub.result && rows.deep_view()
                            == step_rows + sub.rows);
                        let rest = sib_loop(
                            nodes_v,
                            i as int,
                            j as int + 1,
                            cfg_v,
                            ns_v,
                            sub.parsed,
                            sub.result,
                            rec_v,
                            depth as int,
                        );
                        assert(rows0 + target.rows =~= (step_rows + sub.rows) + rest.rows);
                    }
                } else {
                    proof {
                        assert(rows.deep_view() == step_rows);
                    }
                }
                j = j + 1;
            }
            proof {
                let at_end = sib_loop(
                    nodes_v,
                    i as int,
                    nodes_v[i as int].len() as int,
                    cfg_v,
                    ns_v,
                    parsed@,
                    result@,
                    rec_v,
                    depth as int,
                );
                assert(at_end == sib_loop(
                    nodes_v,
                    i as int + 1,
                    0,
                    cfg_v,
                    ns_v,
                    parsed@,
                    result@,
                    rec_v,
                    depth as int,
                ));
            }
            i = i + 1;
        }
        proof {
            assert(target.parsed == parsed@ && target.result == result@);
            assert(rows.deep_view() + Seq::<RowV>::empty() =~= rows.deep_view());
            assert(rows.deep_view() == rows0 + target.rows);
        }
        flush_rows(cfg, parsed, result, rows);
        proof {
            assert(rows.deep_view() =~= rows0 + o.rows);
        }
    } else {
        let ghost scan_target = descent_scan(
            nodes_v,
            0,
            0,
            cfg_v,
            ns_v,
            rec_v,
            depth as int,
            old(parsed)@,
            old(result)@,
            0,
            Seq::empty(),
        );
        let mut queued: Vec<Vec<Element>> = Vec::new();
        let mut found: usize = 0;
        let bound = cfg.levels[depth - 1];
        let mut hit: Option<(Vec<Element>, GroupKey)> = None;
        proof {
            assert(queued.deep_view() =~= Seq::<Seq<ElementV>>::empty());
            assert(bound as int == cfg_v.levels[depth as int - 1]);
        }
        let mut i: usize = 0;
        while i < nodes.len() && hit.is_none()
            invariant
                i <= nodes@.len(),
                parsed.wf(),
                found <= bound,
                bound as int == cfg_v.levels[depth as int - 1],
                rows.deep_view() == rows0,
                match hit {
                    None => descent_scan(
                        nodes_v,
                        i as int,
                        0,
                        cfg_v,
                        ns_v,
                        rec_v,
                        depth as int,
                        parsed@,
                        result@,
                        found as int,
                        queued.deep_view(),
                    ) == scan_target,
                    Some(h) => scan_target == (ScanOut {
                        parsed: parsed@,
                        result: result@,
                        found: found as int,
                        queued: queued.deep_view(),
                        hit: Some((h.0.deep_view(), h.1@)),
                    }),
                },
            decreases nodes@.len() - i,
        {
            let mut j: usize = 0;
            while j < nodes[i].len() && hit.is_none()
                invariant
                    i < nodes@.len(),
                    j <= nodes@[i as int]@.len(),
                    parsed.wf(),
                    found <= bound,
                    bound as int == cfg_v.levels[depth as int - 1],
                    rows.deep_view() == rows0,
                    match hit {
                        None => descent_scan(
                            nodes_v,
                            i as int,
                            j as int,
                            cfg_v,
                            ns_v,
                            rec_v,
                            depth as int,
                            parsed@,
                            result@,
                            found as int,
                            queued.deep_view(),
                        ) == scan_target,
                        Some(h) => scan_target == (ScanOut {
                            parsed: parsed@,
                            result: result@,
                            found: found as int,
                            queued: queued.deep_view(),
                            hit: Some((h.0.deep_view(), h.1@)),
                        }),
                    },
                decreases
                        nodes@[i as int]@.len() - j,
                        (if hit is None {
                            1int
                        } else {
                            0int
                        }),
            {
                let ghost e_v = nodes_v[i as int][j as int];
                let element = &nodes[i][j];
                proof {
                    assert(element@ == e_v);
                }
                let qname = qualify_name(element, namespaces);
                if cfg.elements.contains(&qname, depth) {
                    let sibrun = collect_same_tag(&nodes[i], j);
                    proof {
                        assert(nodes[i as int].deep_view() =~= nodes_v[i as int]);
                        assert(sibrun.deep_view() == filter_same_tag(
                            e_v,
                            nodes_v[i as int].subrange(j as int, nodes_v[i as int].len() as int),
                        ));
                    }
                    let key = GroupKey { name: qname, depth };
                    hit = Some((sibrun, key));
                } else {
                    let ghost step_parsed = parsed@;
                    let ghost step_result = result@;
                    let ghost step_found = found as int;
                    let ghost step_queued = queued.deep_view();
                    let mut matched = false;
                    match recording {
                        Some(key) => {
                            if found < bound {
                                matched = true;
                                let stepped = match_element(
                                    element,
                                    cfg,
                                    namespaces,
                                    key,
                                    parsed,
                                    result,
                                    found,
                                    bound,
                                    depth,
                                );
                                found = stepped.0;
                                if !stepped.1 && element.children.len() > 0 {
                                    let kids = clone_elements(&element.children);
                                    queued.push(kids);
                                    proof {
                                        assert(queued.deep_view() =~= step_queued.push(
                                            e_v.children,
                                        ));
                                    }
                                }
                            }
                        },
                        None => {},
                    }
                    if !matched {
                        if element.children.len() > 0 {
                            let kids = clone_elements(&element.children);
                            queued.push(kids);
                            proof {
                                assert(queued.deep_view() =~= step_queued.push(e_v.children));
                            }
                        }
                    }
                    j = j + 1;
                }
            }
            if hit.is_none() {
                proof {
                    let at_end = descent_scan(
                        nodes_v,
                        i as int,
                        nodes_v[i as int].len() as int,
                        cfg_v,
                        ns_v,
                        rec_v,
                        depth as int,
                        parsed@,
                        result@,
                        found as int,
                        queued.deep_view(),
                    );
                    assert(at_end == descent_scan(
                        nodes_v,
                        i as int + 1,
                        0,
                        cfg_v,
                        ns_v,
                        rec_v,
                        depth as int,
                        parsed@,
                        result@,
                        found as int,
                        queued.deep_view(),
                    ));
                }
            }
            i = i + 1;
        }
        let ghost walked_parsed = parsed@;
        let ghost walked_result = result@;
        let ghost after_group = match scan_target.hit {
            Some(h) => traverse_spec(
                seq![h.0],
                cfg_v,
                ns_v,
                scan_target.parsed,
                scan_target.result,
                Some(h.1),
                true,
                depth as int,
            ),
            None => EngineOut {
                parsed: scan_target.parsed,
                result: scan_target.result,
                rows: Seq::empty(),
            },
        };
        proof {
            lemma_descent_scan_size(
                nodes_v,
                0,
                0,
                cfg_v,
                ns_v,
                rec_v,
                depth as int,
                old(parsed)@,
                old(result)@,
                0,
                Seq::empty(),
            );
            lemma_suffix_size_zero(nodes_v);
            assert(crate::xml::runs_size(Seq::<Seq<ElementV>>::empty()) == 0);
        }
        let no_hit = hit.is_none();
        match hit {
            Some(pair) => {
                let (sibrun, key) = pair;
                proof {
                    lemma_runs_size_single(sibrun.deep_view());
                }
                let mut sub_nodes: Vec<Vec<Element>> = Vec::new();
                let ghost sib_v = sibrun.deep_view();
                sub_nodes.push(sibrun);
                proof {
                    assert(sub_nodes.deep_view() =~= seq![sib_v]);
                }
                traverse(sub_nodes, cfg, namespaces, parsed, result, rows, Some(&key), true, depth);
                proof {
                    assert(parsed@ == after_group.parsed && result@ == after_group.result
                        && rows.deep_view() == rows0 + after_group.rows);
                }
            },
            None => {
                proof {
                    assert(rows.deep_view() =~= rows0 + after_group.rows);
                }
            },
        }
        let ghost after_children = if scan_target.hit is None && scan_target.queued.len() > 0 {
            traverse_spec(
                scan_target.queued,
                cfg_v,
                ns_v,
                after_group.parsed,
                after_group.result,
                rec_v,
                false,
                depth as int + 1,
            )
        } else {
            EngineOut {
                parsed: after_group.parsed,
                result: after_group.result,
                rows: Seq::empty(),
            }
        };
        let ghost mid_rows = rows.deep_view();
        if no_hit && queued.len() > 0 {
            if depth < cfg.levels.len() {
                traverse(queued, cfg, namespaces, parsed, result, rows, recording, false, depth + 1);
            }
            proof {
                assert(parsed@ == after_children.parsed && result@ == after_children.result
                    && rows.deep_view() == mid_rows + after_children.rows);
            }
        } else {
            proof {
                assert(rows.deep_view() =~= mid_rows + after_children.rows);
            }
        }
        proof {
            assert(rows.deep_view() =~= rows0 + (after_group.rows + after_children.rows));
        }
        let ghost flush_in = rows.deep_view();
        flush_rows(cfg, parsed, result, rows);
        proof {
            let f = flush_spec(
                cfg_v,
                after_children.parsed,
                after_children.result,
                after_group.rows + after_children.rows,
            );
            if groups_all_tracked(cfg_v.elements, after_children.parsed) && some_marked(
                after_children.parsed,
            ) {
                assert(rows.deep_view() =~= rows0 + (after_group.rows
                    + after_children.rows).push(row_of(cfg_v.header, after_children.result)));
            }
            assert(rows.deep_view() == rows0 + o.rows);
        }
    }
}

} // verus!
