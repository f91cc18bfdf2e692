//! Laws of the engine, stated and proved against the specification
//! functions that the executable code is verified to implement.

use crate::engine::MatchOut;
use crate::engine::ParsedV;
use crate::engine::ResultV;
use crate::engine::RowV;
use crate::engine::EngineOut;
use crate::engine::attr_path;
use crate::engine::attrs_record;
use crate::engine::bump;
use crate::engine::descent_scan;
use crate::engine::element_filtered;
use crate::engine::filter_same_tag;
use crate::engine::groups_all_tracked;
use crate::engine::lemma_descent_scan_size;
use crate::engine::lemma_elem_size_in_runs;
use crate::engine::lemma_runs_size_single;
use crate::engine::lemma_suffix_size_zero;
use crate::engine::match_element_spec;
use crate::engine::qualify;
use crate::engine::record_spec;
use crate::engine::seed_columns;
use crate::engine::sib_loop;
use crate::engine::some_marked;
use crate::engine::traverse_spec;
use crate::state::MatchV;
use crate::tables::MappingV;
use crate::xml::ElementV;
use crate::xml::runs_size;
use vstd::prelude::*;

verus! {

/// Two directives mapping the same path at two different depths populate
/// two distinct columns: a capture at one depth writes that depth's
/// column, a capture at the other writes the other's, and the two values
/// stand side by side in the record.
pub proof fn lemma_depths_distinguish_columns(
    matcher: Map<(Seq<char>, int), Seq<char>>,
    path: Seq<char>,
    d1: int,
    d2: int,
    v1: Seq<char>,
    v2: Seq<char>,
    rec1: (Seq<char>, int),
    rec2: (Seq<char>, int),
    parsed: ParsedV,
    result: ResultV,
)
    requires
        matcher.contains_key((path, d1)),
        matcher.contains_key((path, d2)),
        d1 != d2,
        matcher[(path, d1)] != matcher[(path, d2)],
    ensures
        ({
            let step1 = record_spec(matcher, path, v1, rec1, d1, parsed, result);
            let step2 = record_spec(matcher, path, v2, rec2, d2, step1.0, step1.1);
            &&& step2.1.contains_key(matcher[(path, d1)]) && step2.1[matcher[(path, d1)]]
                == MatchV::Value(v1)
            &&& step2.1.contains_key(matcher[(path, d2)]) && step2.1[matcher[(path, d2)]]
                == MatchV::Value(v2)
        }),
{
}

/// An element under a namespace bound to alias `x` matches under the
/// path `x:tag` and not under the bare `tag`: its qualified name is
/// `x:tag`, which differs from `tag`, so a directive for `x:tag` at its
/// depth captures its text and one for the bare `tag` alone captures
/// nothing from it.
pub proof fn lemma_namespace_qualification(
    matcher: Map<(Seq<char>, int), Seq<char>>,
    ns: Map<Seq<char>, Seq<char>>,
    uri: Seq<char>,
    tag: Seq<char>,
    depth: int,
    value: Seq<char>,
    rec: (Seq<char>, int),
    parsed: ParsedV,
    result: ResultV,
)
    requires
        ns.contains_key(uri),
    ensures
        qualify(ns, tag, Some(uri)) == ns[uri] + ":"@ + tag,
        qualify(ns, tag, Some(uri)) != tag,
        qualify(ns, tag, None) == tag,
        matcher.contains_key((ns[uri] + ":"@ + tag, depth)) ==> record_spec(
            matcher,
            qualify(ns, tag, Some(uri)),
            value,
            rec,
            depth,
            parsed,
            result,
        ).2 == 1,
        !matcher.contains_key((ns[uri] + ":"@ + tag, depth)) ==> record_spec(
            matcher,
            qualify(ns, tag, Some(uri)),
            value,
            rec,
            depth,
            parsed,
            result,
        ) == (parsed, result, 0int),
{
    reveal_strlit(":");
    assert((ns[uri] + ":"@ + tag).len() == ns[uri].len() + 1 + tag.len());
}

/// The values an excluded occurrence would have captured never reach the
/// record: matching a filtered element leaves the tracker untouched and
/// counts no field, and every record entry it writes is the Unset seed of
/// its own group's columns, never captured text.  Its subtree is not
/// walked at all, so nothing of it can leak into a later sibling's row.
pub proof fn lemma_filtered_occurrence_captures_nothing(
    cfg: MappingV,
    ns: Map<Seq<char>, Seq<char>>,
    e: ElementV,
    rec: (Seq<char>, int),
    depth: int,
    parsed: ParsedV,
    result: ResultV,
    found: int,
    bound: int,
)
    requires
        element_filtered(cfg.filters, qualify(ns, e.name, e.namespace), e, depth),
    ensures
        ({
            let m = match_element_spec(cfg, ns, e, rec, depth, parsed, result, found, bound);
            &&& m.filtered
            &&& m.parsed == parsed
            &&& m.found == found
            &&& forall|c: Seq<char>| #[trigger]
                m.result.contains_key(c) ==> (result.contains_key(c) && m.result[c] == result[c])
                    || m.result[c] == MatchV::Nothing
        }),
{
    let qname = qualify(ns, e.name, e.namespace);
    if cfg.elements.contains_key((qname, depth)) {
        lemma_seed_columns_values(result, cfg.elements[(qname, depth)]);
    }
}

/// A sibling occurrence excluded by a filter yields no row: the walk
/// records nothing for it, skips its subtree, and continues at the next
/// sibling with the tracker exactly as it was, so the occurrence can
/// neither emit a row of its own nor leak a value into a later one.
pub proof fn lemma_filtered_sibling_yields_no_row(
    runs: Seq<Seq<ElementV>>,
    i: int,
    j: int,
    cfg: MappingV,
    ns: Map<Seq<char>, Seq<char>>,
    parsed: ParsedV,
    result: ResultV,
    key: (Seq<char>, int),
    depth: int,
)
    requires
        0 <= i < runs.len(),
        0 <= j < runs[i].len(),
        element_filtered(
            cfg.filters,
            qualify(ns, runs[i][j].name, runs[i][j].namespace),
            runs[i][j],
            depth,
        ),
    ensures
        ({
            let m = match_element_spec(cfg, ns, runs[i][j], key, depth, parsed, result, 0, 0);
            sib_loop(runs, i, j, cfg, ns, parsed, result, Some(key), depth) == sib_loop(
                runs,
                i,
                j + 1,
                cfg,
                ns,
                parsed,
                m.result,
                Some(key),
                depth,
            )
        }),
{
    lemma_filtered_occurrence_captures_nothing(
        cfg,
        ns,
        runs[i][j],
        key,
        depth,
        parsed,
        result,
        0,
        0,
    );
}

/// Seeding only ever writes Unset marks over the record.
proof fn lemma_seed_columns_values(result: ResultV, cols: Seq<Seq<char>>)
    ensures
        forall|c: Seq<char>| #[trigger]
            seed_columns(result, cols).contains_key(c) ==> (result.contains_key(c) && seed_columns(
                result,
                cols,
            )[c] == result[c]) || seed_columns(result, cols)[c] == MatchV::Nothing,
    decreases cols.len(),
{
    if cols.len() > 0 {
        lemma_seed_columns_values(result.insert(cols[0], MatchV::Nothing), cols.drop_first());
    }
}

/// The shape of a flat repeating-group configuration: one declared group
/// at depth 1, every directive one depth below it, and filters, if any,
/// on the group's own depth only.
pub open spec fn flat_group_config(cfg: MappingV, g: Seq<char>) -> bool {
    &&& cfg.elements.contains_key((g, 1int))
    &&& (forall|k: (Seq<char>, int)| #[trigger] cfg.elements.contains_key(k) ==> k == (g, 1int))
    &&& (forall|k: (Seq<char>, int)| #[trigger] cfg.matcher.contains_key(k) ==> k.1 == 2)
    &&& (forall|k: (Seq<char>, int)| #[trigger] cfg.filters.contains_key(k) ==> k.1 == 1)
    &&& cfg.levels.len() == 2
    &&& cfg.levels[1] >= 1
}

/// Whether a filter excludes the group occurrence itself.
pub open spec fn sibling_excluded(
    cfg: MappingV,
    ns: Map<Seq<char>, Seq<char>>,
    s: ElementV,
) -> bool {
    element_filtered(cfg.filters, qualify(ns, s.name, s.namespace), s, 1)
}

/// How many occurrences from position `j` on pass their filters.
pub open spec fn count_kept(
    cfg: MappingV,
    ns: Map<Seq<char>, Seq<char>>,
    run: Seq<ElementV>,
    j: int,
) -> int
    decreases run.len() - j,
{
    if j < 0 || j >= run.len() {
        0
    } else {
        (if sibling_excluded(cfg, ns, run[j]) {
            0int
        } else {
            1int
        }) + count_kept(cfg, ns, run, j + 1)
    }
}

/// Without filters, every occurrence is kept.
pub proof fn lemma_count_kept_total(
    cfg: MappingV,
    ns: Map<Seq<char>, Seq<char>>,
    run: Seq<ElementV>,
    j: int,
)
    requires
        forall|k: (Seq<char>, int)| !(#[trigger] cfg.filters.contains_key(k)),
        0 <= j <= run.len(),
    ensures
        count_kept(cfg, ns, run, j) == run.len() - j,
    decreases run.len() - j,
{
    if j < run.len() {
        assert(!sibling_excluded(cfg, ns, run[j]));
        lemma_count_kept_total(cfg, ns, run, j + 1);
    }
}

/// The sibling is fully populated: it has children and some child's tag
/// is mapped by a directive.
pub open spec fn populated_sibling(
    cfg: MappingV,
    ns: Map<Seq<char>, Seq<char>>,
    s: ElementV,
) -> bool {
    exists|c: int|
        0 <= c < s.children.len() && cfg.matcher.contains_key(
            (qualify(ns, (#[trigger] s.children[c]).name, s.children[c].namespace), 2),
        )
}

/// One capture touches only the recording group's set, and a hit leaves
/// it nonempty.
proof fn lemma_record_localized(
    matcher: Map<(Seq<char>, int), Seq<char>>,
    path: Seq<char>,
    value: Seq<char>,
    rec: (Seq<char>, int),
    depth: int,
    parsed: ParsedV,
    result: ResultV,
)
    ensures
        ({
            let step = record_spec(matcher, path, value, rec, depth, parsed, result);
            &&& (forall|k: (Seq<char>, int)|
                k != rec ==> #[trigger] step.0.contains_key(k) == parsed.contains_key(k))
            &&& (forall|k: (Seq<char>, int)|
                k != rec && parsed.contains_key(k) ==> #[trigger] step.0[k] == parsed[k])
            &&& (parsed.contains_key(rec) && parsed[rec] != Set::<Seq<char>>::empty()
                ==> step.0.contains_key(rec) && step.0[rec] != Set::<Seq<char>>::empty())
            &&& (step.2 == 1 ==> step.0.contains_key(rec) && step.0[rec] != Set::<
                Seq<char>,
            >::empty())
        }),
{
    let step = record_spec(matcher, path, value, rec, depth, parsed, result);
    if matcher.contains_key((path, depth)) {
        let column = matcher[(path, depth)];
        assert(step.0[rec].contains(column));
    }
}

/// Capturing a run of attributes touches only the recording group's set,
/// keeps it nonempty, and leaves it nonempty whenever the count grew.
proof fn lemma_attrs_record_localized(
    matcher: Map<(Seq<char>, int), Seq<char>>,
    qname: Seq<char>,
    attrs: Seq<crate::xml::AttributeV>,
    rec: (Seq<char>, int),
    depth: int,
    parsed: ParsedV,
    result: ResultV,
    found: int,
    bound: int,
)
    ensures
        ({
            let out = attrs_record(matcher, qname, attrs, rec, depth, parsed, result, found, bound);
            &&& (forall|k: (Seq<char>, int)|
                k != rec ==> #[trigger] out.0.contains_key(k) == parsed.contains_key(k))
            &&& (forall|k: (Seq<char>, int)|
                k != rec && parsed.contains_key(k) ==> #[trigger] out.0[k] == parsed[k])
            &&& (parsed.contains_key(rec) && parsed[rec] != Set::<Seq<char>>::empty()
                ==> out.0.contains_key(rec) && out.0[rec] != Set::<Seq<char>>::empty())
            &&& out.2 >= found
            &&& (out.2 > found ==> out.0.contains_key(rec) && out.0[rec] != Set::<
                Seq<char>,
            >::empty())
        }),
    decreases attrs.len(),
{
    if attrs.len() > 0 {
        let step = record_spec(
            matcher,
            attr_path(qname, attrs[0].name),
            attrs[0].value,
            rec,
            depth,
            parsed,
            result,
        );
        lemma_record_localized(
            matcher,
            attr_path(qname, attrs[0].name),
            attrs[0].value,
            rec,
            depth,
            parsed,
            result,
        );
        lemma_attrs_record_localized(
            matcher,
            qname,
            attrs.drop_first(),
            rec,
            depth,
            step.0,
            step.1,
            bump(found, bound, step.2),
            bound,
        );
    }
}

/// Matching one element at a depth no filter speaks of touches only the
/// recording group's set; a text hit leaves it nonempty, and it stays
/// nonempty once it is.
proof fn lemma_match_element_localized(
    cfg: MappingV,
    ns: Map<Seq<char>, Seq<char>>,
    e: ElementV,
    rec: (Seq<char>, int),
    depth: int,
    parsed: ParsedV,
    result: ResultV,
    found: int,
    bound: int,
)
    requires
        forall|k: (Seq<char>, int)| #[trigger] cfg.filters.contains_key(k) ==> k.1 != depth,
    ensures
        ({
            let m = match_element_spec(cfg, ns, e, rec, depth, parsed, result, found, bound);
            &&& !m.filtered
            &&& (forall|k: (Seq<char>, int)|
                k != rec ==> #[trigger] m.parsed.contains_key(k) == parsed.contains_key(k))
            &&& (forall|k: (Seq<char>, int)|
                k != rec && parsed.contains_key(k) ==> #[trigger] m.parsed[k] == parsed[k])
            &&& (parsed.contains_key(rec) && parsed[rec] != Set::<Seq<char>>::empty()
                ==> m.parsed.contains_key(rec) && m.parsed[rec] != Set::<Seq<char>>::empty())
            &&& m.found >= found
            &&& (m.found > found ==> m.parsed.contains_key(rec) && m.parsed[rec] != Set::<
                Seq<char>,
            >::empty())
            &&& (cfg.matcher.contains_key((qualify(ns, e.name, e.namespace), depth))
                ==> m.parsed.contains_key(rec) && m.parsed[rec] != Set::<Seq<char>>::empty())
        }),
{
    let qname = qualify(ns, e.name, e.namespace);
    let seeded = if cfg.elements.contains_key((qname, depth)) {
        seed_columns(result, cfg.elements[(qname, depth)])
    } else {
        result
    };
    assert(!element_filtered(cfg.filters, qname, e, depth));
    let text_step = record_spec(cfg.matcher, qname, e.text, rec, depth, parsed, seeded);
    lemma_record_localized(cfg.matcher, qname, e.text, rec, depth, parsed, seeded);
    lemma_attrs_record_localized(
        cfg.matcher,
        qname,
        e.attributes,
        rec,
        depth,
        text_step.0,
        text_step.1,
        bump(found, bound, text_step.2),
        bound,
    );
}

/// Scanning a run of children under a flat configuration: no group opens,
/// only the recording group's set changes, and it is nonempty afterwards
/// whenever it already was or some remaining child's tag is mapped.
proof fn lemma_flat_scan(
    run: Seq<ElementV>,
    i: int,
    j: int,
    cfg: MappingV,
    ns: Map<Seq<char>, Seq<char>>,
    r: (Seq<char>, int),
    parsed: ParsedV,
    result: ResultV,
    found: int,
    queued: Seq<Seq<ElementV>>,
)
    requires
        forall|k: (Seq<char>, int)| #[trigger] cfg.elements.contains_key(k) ==> k.1 != 2,
        forall|k: (Seq<char>, int)| #[trigger] cfg.filters.contains_key(k) ==> k.1 != 2,
        cfg.levels.len() >= 2,
        cfg.levels[1] >= 1,
        found > 0 ==> parsed.contains_key(r) && parsed[r] != Set::<Seq<char>>::empty(),
    ensures
        ({
            let out = descent_scan(
                seq![run],
                i,
                j,
                cfg,
                ns,
                Some(r),
                2,
                parsed,
                result,
                found,
                queued,
            );
            &&& out.hit is None
            &&& (forall|k: (Seq<char>, int)|
                k != r ==> #[trigger] out.parsed.contains_key(k) == parsed.contains_key(k))
            &&& (forall|k: (Seq<char>, int)|
                k != r && parsed.contains_key(k) ==> #[trigger] out.parsed[k] == parsed[k])
            &&& (parsed.contains_key(r) && parsed[r] != Set::<Seq<char>>::empty()
                ==> out.parsed.contains_key(r) && out.parsed[r] != Set::<Seq<char>>::empty())
            &&& ((i == 0 && 0 <= j && exists|c: int|
                j <= c < run.len() && cfg.matcher.contains_key(
                    (qualify(ns, (#[trigger] run[c]).name, run[c].namespace), 2),
                )) ==> out.parsed.contains_key(r) && out.parsed[r] != Set::<Seq<char>>::empty())
        }),
    decreases
            1 - i,
            (if i == 0 && 0 <= j <= run.len() {
                run.len() - j
            } else {
                0int
            }),
{
    if i < 0 || j < 0 || i >= 1 {
    } else if j >= run.len() {
        lemma_flat_scan(run, i + 1, 0, cfg, ns, r, parsed, result, found, queued);
    } else {
        assert(seq![run][0] == run);
        let e = run[j];
        let qname = qualify(ns, e.name, e.namespace);
        assert(!cfg.elements.contains_key((qname, 2int)));
        let bound = cfg.levels[1];
        let push_q = if e.children.len() > 0 {
            queued.push(e.children)
        } else {
            queued
        };
        let hit_here = cfg.matcher.contains_key((qname, 2int));
        let hit_later = exists|c: int|
            j + 1 <= c < run.len() && cfg.matcher.contains_key(
                (qualify(ns, (#[trigger] run[c]).name, run[c].namespace), 2),
            );
        assert((exists|c: int|
            j <= c < run.len() && cfg.matcher.contains_key(
                (qualify(ns, (#[trigger] run[c]).name, run[c].namespace), 2),
            )) ==> hit_here || hit_later) by {
            if exists|c: int|
                j <= c < run.len() && cfg.matcher.contains_key(
                    (qualify(ns, (#[trigger] run[c]).name, run[c].namespace), 2),
                ) {
                let c = choose|c: int|
                    j <= c < run.len() && cfg.matcher.contains_key(
                        (qualify(ns, (#[trigger] run[c]).name, run[c].namespace), 2),
                    );
                if c != j {
                    assert(j + 1 <= c < run.len() && cfg.matcher.contains_key(
                        (qualify(ns, run[c].name, run[c].namespace), 2),
                    ));
                }
            }
        }
        if found < bound {
            let m = match_element_spec(cfg, ns, e, r, 2, parsed, result, found, bound);
            lemma_match_element_localized(cfg, ns, e, r, 2, parsed, result, found, bound);
            if hit_here {
                assert(m.parsed.contains_key(r) && m.parsed[r] != Set::<Seq<char>>::empty());
            }
            assert(m.found > 0 ==> m.parsed.contains_key(r) && m.parsed[r] != Set::<
                Seq<char>,
            >::empty());
            if m.filtered {
                lemma_flat_scan(run, i, j + 1, cfg, ns, r, m.parsed, m.result, m.found, queued);
            } else {
                lemma_flat_scan(run, i, j + 1, cfg, ns, r, m.parsed, m.result, m.found, push_q);
            }
        } else {
            if hit_here || hit_later {
                assert(found > 0);
                assert(parsed.contains_key(r) && parsed[r] != Set::<Seq<char>>::empty());
            }
            lemma_flat_scan(run, i, j + 1, cfg, ns, r, parsed, result, found, push_q);
        }
    }
}

/// Every element of the run is a leaf: no attributes.
pub open spec fn leaf_elements(s: Seq<ElementV>) -> bool {
    forall|c: int| 0 <= c < s.len() ==> (#[trigger] s[c]).attributes.len() == 0
}

/// The text the column captures from the run at depth 2: the text of the
/// last element from position `j` on whose qualified tag the matcher maps
/// to the column, if any.
pub open spec fn last_value(
    cfg: MappingV,
    ns: Map<Seq<char>, Seq<char>>,
    run: Seq<ElementV>,
    j: int,
    col: Seq<char>,
) -> Option<Seq<char>>
    decreases run.len() - j,
{
    if j < 0 || j >= run.len() {
        None
    } else {
        let rest = last_value(cfg, ns, run, j + 1, col);
        if rest is Some {
            rest
        } else {
            let q = qualify(ns, run[j].name, run[j].namespace);
            if cfg.matcher.contains_key((q, 2int)) && cfg.matcher[(q, 2int)] == col {
                Some(run[j].text)
            } else {
                None
            }
        }
    }
}

/// What the scan of a run of leaves under a flat configuration leaves in
/// each record column: the last mapped element's text, or whatever stood
/// there before.
proof fn lemma_flat_scan_content(
    run: Seq<ElementV>,
    i: int,
    j: int,
    cfg: MappingV,
    ns: Map<Seq<char>, Seq<char>>,
    r: (Seq<char>, int),
    parsed: ParsedV,
    result: ResultV,
    found: int,
    queued: Seq<Seq<ElementV>>,
    col: Seq<char>,
)
    requires
        forall|k: (Seq<char>, int)| #[trigger] cfg.elements.contains_key(k) ==> k.1 != 2,
        forall|k: (Seq<char>, int)| #[trigger] cfg.filters.contains_key(k) ==> k.1 != 2,
        cfg.levels.len() >= 2,
        leaf_elements(run),
        i == 0 ==> found + (run.len() - j) <= cfg.levels[1],
    ensures
        ({
            let out = descent_scan(
                seq![run],
                i,
                j,
                cfg,
                ns,
                Some(r),
                2,
                parsed,
                result,
                found,
                queued,
            );
            match (if i == 0 {
                last_value(cfg, ns, run, j, col)
            } else {
                None
            }) {
                Some(v) => out.result.contains_key(col) && out.result[col] == MatchV::Value(v),
                None => out.result.contains_key(col) == result.contains_key(col) && (
                result.contains_key(col) ==> out.result[col] == result[col]),
            }
        }),
    decreases
            1 - i,
            (if i == 0 && 0 <= j <= run.len() {
                run.len() - j
            } else {
                0int
            }),
{
    if i < 0 || j < 0 || i >= 1 {
    } else if j >= run.len() {
        lemma_flat_scan_content(run, i + 1, 0, cfg, ns, r, parsed, result, found, queued, col);
    } else {
        assert(seq![run][0] == run);
        let e = run[j];
        let qname = qualify(ns, e.name, e.namespace);
        assert(!cfg.elements.contains_key((qname, 2int)));
        assert(e.attributes.len() == 0);
        let bound = cfg.levels[1];
        assert(found < bound);
        let m = match_element_spec(cfg, ns, e, r, 2, parsed, result, found, bound);
        assert(!element_filtered(cfg.filters, qname, e, 2));
        assert(m.found <= found + 1);
        let push_q = if e.children.len() > 0 {
            queued.push(e.children)
        } else {
            queued
        };
        lemma_flat_scan_content(run, i, j + 1, cfg, ns, r, m.parsed, m.result, m.found, push_q, col);
    }
}

/// One populated sibling's children, walked in descent mode, emit exactly
/// one row and leave every populated set empty again.
proof fn lemma_flat_sibling_descent(
    children: Seq<ElementV>,
    cfg: MappingV,
    ns: Map<Seq<char>, Seq<char>>,
    g: Seq<char>,
    parsed: ParsedV,
    result: ResultV,
)
    requires
        flat_group_config(cfg, g),
        all_unmarked(parsed),
        exists|c: int|
            0 <= c < children.len() && cfg.matcher.contains_key(
                (qualify(ns, (#[trigger] children[c]).name, children[c].namespace), 2),
            ),
    ensures
        ({
            let out = traverse_spec(
                seq![children],
                cfg,
                ns,
                parsed,
                result,
                Some((g, 1int)),
                false,
                2,
            );
            out.rows.len() == 1 && all_unmarked(out.parsed)
        }),
{
    let scan = descent_scan(
        seq![children],
        0,
        0,
        cfg,
        ns,
        Some((g, 1int)),
        2,
        parsed,
        result,
        0,
        Seq::empty(),
    );
    assert forall|k: (Seq<char>, int)| #[trigger]
        cfg.elements.contains_key(k) implies k.1 != 2 by {}
    lemma_flat_scan(
        children,
        0,
        0,
        cfg,
        ns,
        (g, 1int),
        parsed,
        result,
        0,
        Seq::empty(),
    );
    assert(scan.parsed.contains_key((g, 1int)) && scan.parsed[(g, 1int)] != Set::<
        Seq<char>,
    >::empty());
    assert(groups_all_tracked(cfg.elements, scan.parsed)) by {
        assert forall|k: (Seq<char>, int)| #[trigger]
            cfg.elements.contains_key(k) implies scan.parsed.contains_key(k) by {
            assert(k == (g, 1int));
        }
    }
    assert(some_marked(scan.parsed));
    let after_children_rows_empty: bool = scan.queued.len() == 0 || traverse_spec(
        scan.queued,
        cfg,
        ns,
        scan.parsed,
        scan.result,
        Some((g, 1int)),
        false,
        3,
    ).rows == Seq::<RowV>::empty();
    assert(after_children_rows_empty);
    let out = traverse_spec(seq![children], cfg, ns, parsed, result, Some((g, 1int)), false, 2);
    assert(Seq::<RowV>::empty() + Seq::<RowV>::empty() =~= Seq::<RowV>::empty());
    assert(out.rows.len() == 1);
    assert forall|k: (Seq<char>, int)| #[trigger]
        out.parsed.contains_key(k) implies out.parsed[k] == Set::<Seq<char>>::empty() by {}
}

/// Walking a run of siblings emits one row per remaining sibling that
/// passes its filters — an excluded occurrence contributes none — and
/// leaves every populated set empty.
proof fn lemma_flat_sib_loop(
    run: Seq<ElementV>,
    j: int,
    cfg: MappingV,
    ns: Map<Seq<char>, Seq<char>>,
    g: Seq<char>,
    parsed: ParsedV,
    result: ResultV,
)
    requires
        flat_group_config(cfg, g),
        all_unmarked(parsed),
        0 <= j,
        forall|s: int|
            j <= s < run.len() && !sibling_excluded(cfg, ns, #[trigger] run[s])
                ==> populated_sibling(cfg, ns, run[s]),
    ensures
        ({
            let out = sib_loop(seq![run], 0, j, cfg, ns, parsed, result, Some((g, 1int)), 1);
            &&& out.rows.len() == count_kept(cfg, ns, run, j)
            &&& all_unmarked(out.parsed)
        }),
    decreases
            (if j <= run.len() {
                run.len() - j
            } else {
                0int
            }),
{
    assert(seq![run][0] == run);
    if j >= run.len() {
        assert(sib_loop(seq![run], 0, j, cfg, ns, parsed, result, Some((g, 1int)), 1)
            == sib_loop(seq![run], 1, 0, cfg, ns, parsed, result, Some((g, 1int)), 1));
    } else {
        let e = run[j];
        let m = match_element_spec(cfg, ns, e, (g, 1int), 1, parsed, result, 0, 0);
        let qname = qualify(ns, e.name, e.namespace);
        if sibling_excluded(cfg, ns, e) {
            lemma_filtered_occurrence_captures_nothing(
                cfg,
                ns,
                e,
                (g, 1int),
                1,
                parsed,
                result,
                0,
                0,
            );
            lemma_flat_sib_loop(run, j + 1, cfg, ns, g, m.parsed, m.result);
        } else {
            assert(populated_sibling(cfg, ns, e));
            assert(e.children.len() > 0) by {
                let c = choose|c: int|
                    0 <= c < e.children.len() && cfg.matcher.contains_key(
                        (qualify(ns, (#[trigger] e.children[c]).name, e.children[c].namespace), 2),
                    );
            }
            assert(!cfg.matcher.contains_key((qname, 1int)));
            assert(!element_filtered(cfg.filters, qname, e, 1));
            assert forall|k: int|
                0 <= k < e.attributes.len() implies !cfg.matcher.contains_key(
                (attr_path(qname, (#[trigger] e.attributes[k]).name), 1int),
            ) by {}
            lemma_no_match_attrs(
                cfg.matcher,
                qname,
                e.attributes,
                (g, 1int),
                1,
                parsed,
                if cfg.elements.contains_key((qname, 1int)) {
                    seed_columns(result, cfg.elements[(qname, 1int)])
                } else {
                    result
                },
                bump(0, 0, 0),
                0,
            );
            assert(m.parsed == parsed && !m.filtered);
            lemma_flat_sibling_descent(e.children, cfg, ns, g, m.parsed, m.result);
            let sub = traverse_spec(
                seq![e.children],
                cfg,
                ns,
                m.parsed,
                m.result,
                Some((g, 1int)),
                false,
                2,
            );
            lemma_flat_sib_loop(run, j + 1, cfg, ns, g, sub.parsed, sub.result);
        }
    }
}

/// For a single occurrence of the repeating group of a flat configuration,
/// starting from an empty record, the one emitted row holds, in header
/// order, the text each column's path captured from the occurrence's
/// children, and the empty string in every column that captured nothing.
pub proof fn lemma_single_occurrence_row(
    s: ElementV,
    cfg: MappingV,
    ns: Map<Seq<char>, Seq<char>>,
    g: Seq<char>,
    parsed: ParsedV,
)
    requires
        flat_group_config(cfg, g),
        all_unmarked(parsed),
        leaf_elements(s.children),
        populated_sibling(cfg, ns, s),
        !sibling_excluded(cfg, ns, s),
        s.children.len() <= cfg.levels[1],
    ensures
        ({
            let out = traverse_spec(
                seq![seq![s]],
                cfg,
                ns,
                parsed,
                Map::empty(),
                Some((g, 1int)),
                true,
                1,
            );
            &&& out.rows.len() == 1
            &&& out.rows[0] == Seq::new(
                cfg.header.len(),
                |x: int|
                    match last_value(cfg, ns, s.children, 0, cfg.header[x]) {
                        Some(v) => v,
                        None => Seq::<char>::empty(),
                    },
            )
        }),
{
    let result0 = Map::<Seq<char>, MatchV>::empty();
    assert(seq![seq![s]][0] == seq![s]);
    assert(seq![s][0] == s);
    let qname1 = qualify(ns, s.name, s.namespace);
    let seeded = if cfg.elements.contains_key((qname1, 1int)) {
        seed_columns(result0, cfg.elements[(qname1, 1int)])
    } else {
        result0
    };
    let m = match_element_spec(cfg, ns, s, (g, 1int), 1, parsed, result0, 0, 0);
    assert(!cfg.matcher.contains_key((qname1, 1int)));
    assert(!element_filtered(cfg.filters, qname1, s, 1));
    assert forall|k: int| 0 <= k < s.attributes.len() implies !cfg.matcher.contains_key(
        (attr_path(qname1, (#[trigger] s.attributes[k]).name), 1int),
    ) by {}
    lemma_no_match_attrs(
        cfg.matcher,
        qname1,
        s.attributes,
        (g, 1int),
        1,
        parsed,
        seeded,
        bump(0, 0, 0),
        0,
    );
    assert(m.parsed == parsed && m.result == seeded && !m.filtered);
    lemma_seed_columns_values(result0, if cfg.elements.contains_key((qname1, 1int)) {
        cfg.elements[(qname1, 1int)]
    } else {
        Seq::empty()
    });
    assert(seed_columns(result0, Seq::empty()) == result0);
    assert(forall|c: Seq<char>| #[trigger]
        m.result.contains_key(c) ==> m.result[c] == MatchV::Nothing);
    assert(s.children.len() > 0) by {
        let c = choose|c: int|
            0 <= c < s.children.len() && cfg.matcher.contains_key(
                (qualify(ns, (#[trigger] s.children[c]).name, s.children[c].namespace), 2),
            );
    }
    // the occurrence's children, walked one depth deeper
    let scan = descent_scan(
        seq![s.children],
        0,
        0,
        cfg,
        ns,
        Some((g, 1int)),
        2,
        m.parsed,
        m.result,
        0,
        Seq::empty(),
    );
    assert forall|k: (Seq<char>, int)| #[trigger]
        cfg.elements.contains_key(k) implies k.1 != 2 by {}
    lemma_flat_scan(s.children, 0, 0, cfg, ns, (g, 1int), m.parsed, m.result, 0, Seq::empty());
    assert(scan.parsed.contains_key((g, 1int)) && scan.parsed[(g, 1int)] != Set::<
        Seq<char>,
    >::empty());
    assert(groups_all_tracked(cfg.elements, scan.parsed)) by {
        assert forall|k: (Seq<char>, int)| #[trigger]
            cfg.elements.contains_key(k) implies scan.parsed.contains_key(k) by {
            assert(k == (g, 1int));
        }
    }
    assert(some_marked(scan.parsed));
    let sub = traverse_spec(seq![s.children], cfg, ns, m.parsed, m.result, Some((g, 1int)), false, 2);
    let queued_rows_empty: bool = scan.queued.len() == 0 || traverse_spec(
        scan.queued,
        cfg,
        ns,
        scan.parsed,
        scan.result,
        Some((g, 1int)),
        false,
        3,
    ).rows == Seq::<RowV>::empty();
    assert(queued_rows_empty);
    assert(Seq::<RowV>::empty() + Seq::<RowV>::empty() =~= Seq::<RowV>::empty());
    let emitted = crate::engine::row_of(cfg.header, scan.result);
    assert(sub.rows == Seq::<RowV>::empty().push(emitted));
    assert forall|k: (Seq<char>, int)| #[trigger]
        sub.parsed.contains_key(k) implies sub.parsed[k] == Set::<Seq<char>>::empty() by {}
    // the emitted row, column by column
    let expected = Seq::new(
        cfg.header.len(),
        |x: int|
            match last_value(cfg, ns, s.children, 0, cfg.header[x]) {
                Some(v) => v,
                None => Seq::<char>::empty(),
            },
    );
    assert forall|x: int| 0 <= x < cfg.header.len() implies emitted[x] == expected[x] by {
        let col = cfg.header[x];
        lemma_flat_scan_content(
            s.children,
            0,
            0,
            cfg,
            ns,
            (g, 1int),
            m.parsed,
            m.result,
            0,
            Seq::empty(),
            col,
        );
    }
    assert(emitted =~= expected);
    // the rest of the run is empty, and nothing more is flushed
    let walked = sib_loop(seq![seq![s]], 0, 0, cfg, ns, parsed, result0, Some((g, 1int)), 1);
    assert(sib_loop(seq![seq![s]], 0, 1, cfg, ns, sub.parsed, sub.result, Some((g, 1int)), 1)
        == sib_loop(seq![seq![s]], 1, 0, cfg, ns, sub.parsed, sub.result, Some((g, 1int)), 1));
    assert(walked.rows == sub.rows + Seq::<RowV>::empty());
    assert(walked.rows =~= seq![emitted]);
    lemma_all_unmarked_not_some_marked(walked.parsed);
    let out = traverse_spec(seq![seq![s]], cfg, ns, parsed, result0, Some((g, 1int)), true, 1);
    assert(out.rows == walked.rows);
    assert(out.rows[0] == expected);
}

/// For a run of sibling occurrences of the declared repeating group of a
/// flat configuration, the siblings walk emits exactly one row for every
/// occurrence its filters keep, in document order: an occurrence whose
/// filtered path's captured text differs from the literal yields no row.
pub proof fn lemma_filtered_occurrences_yield_no_rows(
    run: Seq<ElementV>,
    cfg: MappingV,
    ns: Map<Seq<char>, Seq<char>>,
    g: Seq<char>,
    parsed: ParsedV,
    result: ResultV,
)
    requires
        flat_group_config(cfg, g),
        all_unmarked(parsed),
        forall|s: int|
            0 <= s < run.len() && !sibling_excluded(cfg, ns, #[trigger] run[s])
                ==> populated_sibling(cfg, ns, run[s]),
    ensures
        traverse_spec(seq![run], cfg, ns, parsed, result, Some((g, 1int)), true, 1).rows.len()
            == count_kept(cfg, ns, run, 0),
{
    lemma_flat_sib_loop(run, 0, cfg, ns, g, parsed, result);
    let walked = sib_loop(seq![run], 0, 0, cfg, ns, parsed, result, Some((g, 1int)), 1);
    lemma_all_unmarked_not_some_marked(walked.parsed);
}

/// For a run of N sibling occurrences of the declared repeating group of
/// a filterless flat configuration, each fully populated, the siblings
/// walk emits exactly N rows: one per sibling, in document order.
pub proof fn lemma_each_populated_sibling_emits_one_row(
    run: Seq<ElementV>,
    cfg: MappingV,
    ns: Map<Seq<char>, Seq<char>>,
    g: Seq<char>,
    parsed: ParsedV,
    result: ResultV,
)
    requires
        flat_group_config(cfg, g),
        forall|k: (Seq<char>, int)| !(#[trigger] cfg.filters.contains_key(k)),
        all_unmarked(parsed),
        forall|s: int| 0 <= s < run.len() ==> populated_sibling(cfg, ns, #[trigger] run[s]),
    ensures
        traverse_spec(seq![run], cfg, ns, parsed, result, Some((g, 1int)), true, 1).rows.len()
            == run.len(),
{
    assert forall|s: int|
        0 <= s < run.len() && !sibling_excluded(cfg, ns, #[trigger] run[s]) implies
        populated_sibling(cfg, ns, run[s]) by {}
    lemma_filtered_occurrences_yield_no_rows(run, cfg, ns, g, parsed, result);
    lemma_count_kept_total(cfg, ns, run, 0);
}

/// No directive matches the element at this depth: neither its text path
/// nor any attribute path is in the matcher, and the same holds of its
/// children one depth deeper.
pub open spec fn no_match_elem(
    matcher: Map<(Seq<char>, int), Seq<char>>,
    ns: Map<Seq<char>, Seq<char>>,
    e: ElementV,
    depth: int,
) -> bool
    decreases e,
{
    let qname = qualify(ns, e.name, e.namespace);
    &&& !matcher.contains_key((qname, depth))
    &&& (forall|k: int|
        0 <= k < e.attributes.len() ==> !matcher.contains_key(
            (attr_path(qname, (#[trigger] e.attributes[k]).name), depth),
        ))
    &&& no_match_elems(matcher, ns, e.children, depth + 1)
}

pub open spec fn no_match_elems(
    matcher: Map<(Seq<char>, int), Seq<char>>,
    ns: Map<Seq<char>, Seq<char>>,
    s: Seq<ElementV>,
    depth: int,
) -> bool
    decreases s,
{
    s.len() == 0 || (no_match_elem(matcher, ns, s[0], depth) && no_match_elems(
        matcher,
        ns,
        s.drop_first(),
        depth,
    ))
}

pub open spec fn no_match_runs(
    matcher: Map<(Seq<char>, int), Seq<char>>,
    ns: Map<Seq<char>, Seq<char>>,
    rs: Seq<Seq<ElementV>>,
    depth: int,
) -> bool
    decreases rs,
{
    rs.len() == 0 || (no_match_elems(matcher, ns, rs[0], depth) && no_match_runs(
        matcher,
        ns,
        rs.drop_first(),
        depth,
    ))
}

/// Every group's populated set is empty, as at the start of a document
/// or just after a flush.
pub open spec fn all_unmarked(parsed: ParsedV) -> bool {
    forall|k: (Seq<char>, int)| #[trigger]
        parsed.contains_key(k) ==> parsed[k] == Set::<Seq<char>>::empty()
}

proof fn lemma_no_match_elems_index(
    matcher: Map<(Seq<char>, int), Seq<char>>,
    ns: Map<Seq<char>, Seq<char>>,
    s: Seq<ElementV>,
    depth: int,
    i: int,
)
    requires
        no_match_elems(matcher, ns, s, depth),
        0 <= i < s.len(),
    ensures
        no_match_elem(matcher, ns, s[i], depth),
    decreases s,
{
    if i > 0 {
        lemma_no_match_elems_index(matcher, ns, s.drop_first(), depth, i - 1);
        assert(s.drop_first()[i - 1] == s[i]);
    }
}

proof fn lemma_no_match_elems_suffix(
    matcher: Map<(Seq<char>, int), Seq<char>>,
    ns: Map<Seq<char>, Seq<char>>,
    s: Seq<ElementV>,
    depth: int,
    i: int,
)
    requires
        no_match_elems(matcher, ns, s, depth),
        0 <= i <= s.len(),
    ensures
        no_match_elems(matcher, ns, s.subrange(i, s.len() as int), depth),
    decreases s.len() - i,
{
    let suf = s.subrange(i, s.len() as int);
    if i == s.len() {
        assert(suf.len() == 0);
    } else {
        lemma_no_match_elems_index(matcher, ns, s, depth, i);
        lemma_no_match_elems_suffix(matcher, ns, s, depth, i + 1);
        assert(suf[0] == s[i]);
        assert(suf.drop_first() =~= s.subrange(i + 1, s.len() as int));
    }
}

proof fn lemma_no_match_runs_index(
    matcher: Map<(Seq<char>, int), Seq<char>>,
    ns: Map<Seq<char>, Seq<char>>,
    rs: Seq<Seq<ElementV>>,
    depth: int,
    i: int,
)
    requires
        no_match_runs(matcher, ns, rs, depth),
        0 <= i < rs.len(),
    ensures
        no_match_elems(matcher, ns, rs[i], depth),
    decreases rs,
{
    if i > 0 {
        lemma_no_match_runs_index(matcher, ns, rs.drop_first(), depth, i - 1);
        assert(rs.drop_first()[i - 1] == rs[i]);
    }
}

proof fn lemma_no_match_filter(
    matcher: Map<(Seq<char>, int), Seq<char>>,
    ns: Map<Seq<char>, Seq<char>>,
    proto: ElementV,
    s: Seq<ElementV>,
    depth: int,
)
    requires
        no_match_elems(matcher, ns, s, depth),
    ensures
        no_match_elems(matcher, ns, filter_same_tag(proto, s), depth),
    decreases s.len(),
{
    if s.len() > 0 {
        lemma_no_match_filter(matcher, ns, proto, s.drop_first(), depth);
        if crate::engine::same_tag(proto, s[0]) {
            let rest = filter_same_tag(proto, s.drop_first());
            assert((seq![s[0]] + rest)[0] == s[0]);
            assert((seq![s[0]] + rest).drop_first() =~= rest);
        }
    }
}

proof fn lemma_no_match_runs_push(
    matcher: Map<(Seq<char>, int), Seq<char>>,
    ns: Map<Seq<char>, Seq<char>>,
    rs: Seq<Seq<ElementV>>,
    r: Seq<ElementV>,
    depth: int,
)
    requires
        no_match_runs(matcher, ns, rs, depth),
        no_match_elems(matcher, ns, r, depth),
    ensures
        no_match_runs(matcher, ns, rs.push(r), depth),
    decreases rs,
{
    if rs.len() == 0 {
        assert(rs.push(r)[0] == r);
        assert(rs.push(r).drop_first() =~= Seq::<Seq<ElementV>>::empty());
        assert(no_match_runs(matcher, ns, Seq::<Seq<ElementV>>::empty(), depth));
    } else {
        assert(rs.push(r)[0] == rs[0]);
        assert(rs.push(r).drop_first() =~= rs.drop_first().push(r));
        lemma_no_match_runs_push(matcher, ns, rs.drop_first(), r, depth);
    }
}

proof fn lemma_no_match_single(
    matcher: Map<(Seq<char>, int), Seq<char>>,
    ns: Map<Seq<char>, Seq<char>>,
    r: Seq<ElementV>,
    depth: int,
)
    requires
        no_match_elems(matcher, ns, r, depth),
    ensures
        no_match_runs(matcher, ns, seq![r], depth),
{
    assert(seq![r][0] == r);
    assert(seq![r].drop_first() =~= Seq::<Seq<ElementV>>::empty());
    assert(no_match_runs(matcher, ns, Seq::<Seq<ElementV>>::empty(), depth));
}

proof fn lemma_no_match_attrs(
    matcher: Map<(Seq<char>, int), Seq<char>>,
    qname: Seq<char>,
    attrs: Seq<crate::xml::AttributeV>,
    rec: (Seq<char>, int),
    depth: int,
    parsed: ParsedV,
    result: ResultV,
    found: int,
    bound: int,
)
    requires
        forall|k: int|
            0 <= k < attrs.len() ==> !matcher.contains_key(
                (attr_path(qname, (#[trigger] attrs[k]).name), depth),
            ),
    ensures
        attrs_record(matcher, qname, attrs, rec, depth, parsed, result, found, bound) == (
            parsed,
            result,
            found,
        ),
    decreases attrs.len(),
{
    if attrs.len() > 0 {
        assert(forall|k: int|
            0 <= k < attrs.drop_first().len() ==> (#[trigger] attrs.drop_first()[k]) == attrs[k
                + 1]);
        lemma_no_match_attrs(
            matcher,
            qname,
            attrs.drop_first(),
            rec,
            depth,
            parsed,
            result,
            bump(found, bound, 0),
            bound,
        );
    }
}

proof fn lemma_no_match_element(
    cfg: MappingV,
    ns: Map<Seq<char>, Seq<char>>,
    e: ElementV,
    rec: (Seq<char>, int),
    depth: int,
    parsed: ParsedV,
    result: ResultV,
    found: int,
    bound: int,
)
    requires
        no_match_elem(cfg.matcher, ns, e, depth),
    ensures
        ({
            let m = match_element_spec(cfg, ns, e, rec, depth, parsed, result, found, bound);
            m.parsed == parsed && m.found == found
        }),
{
    let qname = qualify(ns, e.name, e.namespace);
    if !element_filtered(cfg.filters, qname, e, depth) {
        let seeded = if cfg.elements.contains_key((qname, depth)) {
            seed_columns(result, cfg.elements[(qname, depth)])
        } else {
            result
        };
        lemma_no_match_attrs(
            cfg.matcher,
            qname,
            e.attributes,
            rec,
            depth,
            parsed,
            seeded,
            bump(found, bound, 0),
            bound,
        );
    }
}

proof fn lemma_no_match_scan(
    runs: Seq<Seq<ElementV>>,
    i: int,
    j: int,
    cfg: MappingV,
    ns: Map<Seq<char>, Seq<char>>,
    rec: Option<(Seq<char>, int)>,
    depth: int,
    parsed: ParsedV,
    result: ResultV,
    found: int,
    queued: Seq<Seq<ElementV>>,
)
    requires
        no_match_runs(cfg.matcher, ns, runs, depth),
        no_match_runs(cfg.matcher, ns, queued, depth + 1),
    ensures
        ({
            let out = descent_scan(runs, i, j, cfg, ns, rec, depth, parsed, result, found, queued);
            &&& out.parsed == parsed
            &&& no_match_runs(cfg.matcher, ns, out.queued, depth + 1)
            &&& (out.hit is Some ==> no_match_elems(cfg.matcher, ns, (out.hit->0).0, depth))
        }),
    decreases
            runs.len() - i,
            (if 0 <= i < runs.len() && j <= runs[i].len() {
                runs[i].len() - j
            } else {
                0int
            }),
{
    if i < 0 || j < 0 || i >= runs.len() {
    } else if j >= runs[i].len() {
        lemma_no_match_scan(runs, i + 1, 0, cfg, ns, rec, depth, parsed, result, found, queued);
    } else {
        let e = runs[i][j];
        lemma_no_match_runs_index(cfg.matcher, ns, runs, depth, i);
        lemma_no_match_elems_index(cfg.matcher, ns, runs[i], depth, j);
        let qname = qualify(ns, e.name, e.namespace);
        if cfg.elements.contains_key((qname, depth)) {
            lemma_no_match_elems_suffix(cfg.matcher, ns, runs[i], depth, j);
            lemma_no_match_filter(
                cfg.matcher,
                ns,
                e,
                runs[i].subrange(j, runs[i].len() as int),
                depth,
            );
        } else {
            let push_q = if e.children.len() > 0 {
                queued.push(e.children)
            } else {
                queued
            };
            if e.children.len() > 0 {
                lemma_no_match_runs_push(cfg.matcher, ns, queued, e.children, depth + 1);
            }
            if rec is Some && found < cfg.levels[depth - 1] {
                let m = match_element_spec(
                    cfg,
                    ns,
                    e,
                    rec->0,
                    depth,
                    parsed,
                    result,
                    found,
                    cfg.levels[depth - 1],
                );
                lemma_no_match_element(
                    cfg,
                    ns,
                    e,
                    rec->0,
                    depth,
                    parsed,
                    result,
                    found,
                    cfg.levels[depth - 1],
                );
                if m.filtered {
                    lemma_no_match_scan(
                        runs,
                        i,
                        j + 1,
                        cfg,
                        ns,
                        rec,
                        depth,
                        m.parsed,
                        m.result,
                        m.found,
                        queued,
                    );
                } else {
                    lemma_no_match_scan(
                        runs,
                        i,
                        j + 1,
                        cfg,
                        ns,
                        rec,
                        depth,
                        m.parsed,
                        m.result,
                        m.found,
                        push_q,
                    );
                }
            } else {
                lemma_no_match_scan(
                    runs,
                    i,
                    j + 1,
                    cfg,
                    ns,
                    rec,
                    depth,
                    parsed,
                    result,
                    found,
                    push_q,
                );
            }
        }
    }
}

proof fn lemma_all_unmarked_not_some_marked(parsed: ParsedV)
    requires
        all_unmarked(parsed),
    ensures
        !some_marked(parsed),
{
    if some_marked(parsed) {
        let k = choose|k: (Seq<char>, int)|
            parsed.contains_key(k) && parsed[k] != Set::<Seq<char>>::empty();
        assert(parsed.contains_key(k));
    }
}

/// A document none of whose elements matches any directive emits zero
/// record rows: the walk leaves the tracker exactly as it was.
pub proof fn lemma_no_match_no_rows(
    nodes: Seq<Seq<ElementV>>,
    cfg: MappingV,
    ns: Map<Seq<char>, Seq<char>>,
    parsed: ParsedV,
    result: ResultV,
    rec: Option<(Seq<char>, int)>,
    siblings: bool,
    depth: int,
)
    requires
        no_match_runs(cfg.matcher, ns, nodes, depth),
        all_unmarked(parsed),
    ensures
        ({
            let out = traverse_spec(nodes, cfg, ns, parsed, result, rec, siblings, depth);
            out.parsed == parsed && out.rows == Seq::<RowV>::empty()
        }),
    decreases
            runs_size(nodes),
            (if siblings {
                1int
            } else {
                2int
            }),
            0int,
            0int,
{
    if depth < 1 || depth > cfg.levels.len() {
    } else if siblings {
        lemma_no_match_sib(nodes, 0, 0, cfg, ns, parsed, result, rec, depth);
        let walked = sib_loop(nodes, 0, 0, cfg, ns, parsed, result, rec, depth);
        lemma_all_unmarked_not_some_marked(walked.parsed);
    } else {
        let scan = descent_scan(nodes, 0, 0, cfg, ns, rec, depth, parsed, result, 0, Seq::empty());
        lemma_no_match_scan(nodes, 0, 0, cfg, ns, rec, depth, parsed, result, 0, Seq::empty());
        lemma_descent_scan_size(nodes, 0, 0, cfg, ns, rec, depth, parsed, result, 0, Seq::empty());
        lemma_suffix_size_zero(nodes);
        assert(runs_size(Seq::<Seq<ElementV>>::empty()) == 0);
        let after_group = match scan.hit {
            Some(h) => {
                lemma_runs_size_single(h.0);
                lemma_no_match_single(cfg.matcher, ns, h.0, depth);
                lemma_no_match_no_rows(
                    seq![h.0],
                    cfg,
                    ns,
                    scan.parsed,
                    scan.result,
                    Some(h.1),
                    true,
                    depth,
                );
                traverse_spec(seq![h.0], cfg, ns, scan.parsed, scan.result, Some(h.1), true, depth)
            },
            None => EngineOut { parsed: scan.parsed, result: scan.result, rows: Seq::empty() },
        };
        let after_children = if scan.hit is None && scan.queued.len() > 0 {
            lemma_no_match_no_rows(
                scan.queued,
                cfg,
                ns,
                after_group.parsed,
                after_group.result,
                rec,
                false,
                depth + 1,
            );
            traverse_spec(
                scan.queued,
                cfg,
                ns,
                after_group.parsed,
                after_group.result,
                rec,
                false,
                depth + 1,
            )
        } else {
            EngineOut { parsed: after_group.parsed, result: after_group.result, rows: Seq::empty() }
        };
        lemma_all_unmarked_not_some_marked(after_children.parsed);
        assert(after_group.rows + after_children.rows =~= Seq::<RowV>::empty());
    }
}

proof fn lemma_no_match_sib(
    runs: Seq<Seq<ElementV>>,
    i: int,
    j: int,
    cfg: MappingV,
    ns: Map<Seq<char>, Seq<char>>,
    parsed: ParsedV,
    result: ResultV,
    rec: Option<(Seq<char>, int)>,
    depth: int,
)
    requires
        no_match_runs(cfg.matcher, ns, runs, depth),
        all_unmarked(parsed),
        1 <= depth <= cfg.levels.len(),
    ensures
        ({
            let out = sib_loop(runs, i, j, cfg, ns, parsed, result, rec, depth);
            out.parsed == parsed && out.rows == Seq::<RowV>::empty()
        }),
    decreases
            runs_size(runs),
            0int,
            runs.len() - i,
            (if 0 <= i < runs.len() && j <= runs[i].len() {
                runs[i].len() - j
            } else {
                0int
            }),
{
    if i < 0 || j < 0 || i >= runs.len() {
    } else if j >= runs[i].len() {
        lemma_no_match_sib(runs, i + 1, 0, cfg, ns, parsed, result, rec, depth);
    } else {
        let e = runs[i][j];
        lemma_no_match_runs_index(cfg.matcher, ns, runs, depth, i);
        lemma_no_match_elems_index(cfg.matcher, ns, runs[i], depth, j);
        let m = match rec {
            Some(k) => {
                lemma_no_match_element(cfg, ns, e, k, depth, parsed, result, 0, 0);
                match_element_spec(cfg, ns, e, k, depth, parsed, result, 0, 0)
            },
            None => MatchOut { parsed, result, found: 0, filtered: false },
        };
        if !m.filtered && e.children.len() > 0 {
            lemma_elem_size_in_runs(runs, i, j);
            lemma_runs_size_single(e.children);
            lemma_no_match_single(cfg.matcher, ns, e.children, depth + 1);
            lemma_no_match_no_rows(
                seq![e.children],
                cfg,
                ns,
                m.parsed,
                m.result,
                rec,
                false,
                depth + 1,
            );
            let sub = traverse_spec(
                seq![e.children],
                cfg,
                ns,
                m.parsed,
                m.result,
                rec,
                false,
                depth + 1,
            );
            lemma_no_match_sib(runs, i, j + 1, cfg, ns, sub.parsed, sub.result, rec, depth);
            let rest = sib_loop(runs, i, j + 1, cfg, ns, sub.parsed, sub.result, rec, depth);
            assert(sub.rows + rest.rows =~= Seq::<RowV>::empty());
        } else {
            lemma_no_match_sib(runs, i, j + 1, cfg, ns, m.parsed, m.result, rec, depth);
        }
    }
}

} // verus!
