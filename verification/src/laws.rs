//! Crate-level properties that relate several functions, stated and proved
//! once so a reader sees what holds rather than what merely follows.
//!
//! Properties that are single-function contracts live on the functions
//! themselves: that weighted-index construction succeeds exactly on valid
//! weight vectors and that sampling always returns a valid index stand as
//! the contracts of `WeightedDist::new` and `WeightedDist::sample`; what the
//! validator owes for missing references stands on
//! `TableCollection::validate_tables`; and the deterministic error kinds and
//! messages of blocked or starved references stand on `Rule::resolve` and
//! the generation functions.
use vstd::prelude::*;

use crate::collection::concat_texts;
use crate::collection::lit_concat;
use crate::collection::output_from;
use crate::collection::rule_output_ok;
use crate::collection::TableDefModel;
use crate::model::FilterModel;
use crate::model::RuleInstModel;
use crate::model::RuleModel;
use crate::model::ns_prefixed;
use crate::model::ns_rewrite_rule;
use crate::parser::sp_body;
use crate::parser::sp_filters;
use crate::parser::sp_rule_line;
use crate::parser::sp_rules_rest;
use crate::parser::sp_table;
use crate::parser::sp_tag;
use crate::parser::sp_transform;
use crate::parser::sp_transforms;
use crate::text::dec_rep;

verus! {

// ---------------------------------------------------------------------------
// Deterministic generation from literal tables
// ---------------------------------------------------------------------------
/// Generation from a table containing only rules that are the single
/// literal `x` always returns exactly `x`. Together with the contract of
/// `TableCollection::gen` (an all-simple table always generates
/// successfully, and every success is the resolution of one of its rules),
/// this pins the generated text completely.
pub proof fn lemma_generate_literal_table(
    tables: Seq<TableDefModel>,
    t: TableDefModel,
    x: Seq<char>,
    out: Seq<char>,
)
    requires
        forall|i: int|
            0 <= i < t.rules.len() ==> (#[trigger] t.rules[i]).parts == seq![
                RuleInstModel::Literal(x),
            ],
        output_from(tables, t, out),
    ensures
        out == x,
{
    let i = choose|i: int|
        0 <= i < t.rules.len() && t.weights[i] > 0 && rule_output_ok(
            tables,
            #[trigger] t.rules[i],
            out,
        );
    crate::collection::lemma_literal_rule_output(tables, t.rules[i], out);
    let parts = t.rules[i].parts;
    assert(parts.skip(1) =~= Seq::<RuleInstModel>::empty());
    assert(lit_concat(Seq::<RuleInstModel>::empty()) == Seq::<char>::empty());
    assert(parts[0] == RuleInstModel::Literal(x));
    assert(lit_concat(parts) =~= x + Seq::<char>::empty());
    assert(x + Seq::<char>::empty() =~= x);
}

/// Generating from a parent table whose single rule is a fixed literal
/// followed by an interpolation of a child table of single fixed literal
/// rules deterministically yields the parent literal followed by the child
/// literal, whatever the random draws were.
pub proof fn lemma_parent_child_output(
    tables: Seq<TableDefModel>,
    parent: TableDefModel,
    prefix: Seq<char>,
    child_id: Seq<char>,
    x: Seq<char>,
    out: Seq<char>,
)
    requires
        forall|i: int|
            0 <= i < parent.rules.len() ==> (#[trigger] parent.rules[i]).parts == seq![
                RuleInstModel::Literal(prefix),
                RuleInstModel::Interpolation(child_id, Seq::<FilterModel>::empty()),
            ],
        crate::collection::lookup(tables, child_id) is Some,
        ({
            let ct = crate::collection::lookup(tables, child_id).unwrap();
            forall|i: int|
                0 <= i < ct.rules.len() ==> (#[trigger] ct.rules[i]).parts == seq![
                    RuleInstModel::Literal(x),
                ]
        }),
        output_from(tables, parent, out),
    ensures
        out == prefix + x,
{
    let i = choose|i: int|
        0 <= i < parent.rules.len() && parent.weights[i] > 0 && rule_output_ok(
            tables,
            #[trigger] parent.rules[i],
            out,
        );
    let r = parent.rules[i];
    let ts = choose|ts: Seq<Seq<char>>|
        {
            &&& ts.len() == r.parts.len()
            &&& (forall|k: int|
                0 <= k < ts.len() ==> crate::collection::part_text_ok(
                    tables,
                    #[trigger] r.parts[k],
                    ts[k],
                ))
            &&& out == concat_texts(ts)
        };
    assert(crate::collection::part_text_ok(tables, r.parts[0], ts[0]));
    assert(crate::collection::part_text_ok(tables, r.parts[1], ts[1]));
    assert(ts[0] == prefix);
    // The second part is the interpolation of the child table without
    // filters: it collects exactly one candidate, the child's literal.
    let fs = Seq::<FilterModel>::empty();
    assert(crate::collection::interp_output_ok(tables, child_id, fs, ts[1]));
    let rs = choose|rs: Seq<Seq<char>>|
        {
            &&& rs.len() == crate::model::unique_count(fs)
            &&& crate::collection::distinct_seqs(rs)
            &&& (forall|k: int|
                0 <= k < rs.len() ==> crate::collection::filtered_candidate(
                    tables,
                    child_id,
                    fs,
                    #[trigger] rs[k],
                ))
            &&& ts[1] == crate::model::join_results(
                rs,
                crate::model::join_of(fs).0,
                crate::model::join_of(fs).1,
            )
        };
    assert(crate::model::unique_count(fs) == 1);
    assert(crate::model::join_of(fs).1 is None);
    assert(crate::collection::filtered_candidate(tables, child_id, fs, rs[0]));
    let g = choose|g: Seq<char>|
        rs[0] == crate::model::apply_filters(fs, g) && #[trigger] crate::collection::literal_table_output(
            tables,
            child_id,
            g,
        );
    let ct = crate::collection::lookup(tables, child_id).unwrap();
    assert(crate::collection::literal_table(ct)) by {
        assert forall|a: int, k: int|
            0 <= a < ct.rules.len() && 0 <= k < (#[trigger] ct.rules[a]).parts.len() implies (#[trigger] ct.rules[a].parts[k]) is Literal by {
            assert(ct.rules[a].parts == seq![RuleInstModel::Literal(x)]);
        }
    }
    let ci = choose|ci: int|
        0 <= ci < ct.rules.len() && ct.weights[ci] > 0 && g == lit_concat(
            #[trigger] ct.rules[ci].parts,
        );
    assert(ct.rules[ci].parts == seq![RuleInstModel::Literal(x)]);
    assert(ct.rules[ci].parts.skip(1) =~= Seq::<RuleInstModel>::empty());
    assert(lit_concat(Seq::<RuleInstModel>::empty()) == Seq::<char>::empty());
    assert(g =~= x + Seq::<char>::empty());
    assert(g =~= x);
    assert(rs[0] == g);
    assert(ts[1] == crate::model::join_results(rs, crate::model::join_of(fs).0, None));
    assert(ts[1] == crate::model::join_plain(rs, crate::model::join_of(fs).0));
    assert(rs.len() == 1);
    assert(ts[1] == rs[0]);
    assert(ts.skip(1).skip(1) =~= Seq::<Seq<char>>::empty());
    assert(concat_texts(Seq::<Seq<char>>::empty()) == Seq::<char>::empty());
    assert(ts.skip(1)[0] == ts[1]);
    assert(ts.skip(1).len() == 1);
    assert(concat_texts(ts.skip(1)) =~= ts[1] + Seq::<char>::empty());
    assert(out =~= prefix + (x + Seq::<char>::empty()));
    assert(out =~= prefix + x);
}

// ---------------------------------------------------------------------------
// Filter pipeline ordering
// ---------------------------------------------------------------------------
/// The position class of a filter in a pipeline: transforms first, then
/// `unique`, then `join`.
pub open spec fn filter_rank(f: FilterModel) -> int {
    match f {
        FilterModel::Unique(_) => 1,
        FilterModel::Join(_, _) => 2,
        _ => 0,
    }
}

/// A pipeline in grammar order: ranks strictly increase except among the
/// leading transforms, so a transform can never follow `unique` or `join`,
/// `unique` can never follow `join`, and `unique` and `join` occur at most
/// once.
pub open spec fn pipeline_ordered(fs: Seq<FilterModel>) -> bool {
    forall|i: int, j: int|
        0 <= i < j < fs.len() ==> (filter_rank(#[trigger] fs[i]) < filter_rank(#[trigger] fs[j])
            || (filter_rank(fs[i]) == 0 && filter_rank(fs[j]) == 0))
}

/// The transform section of a parsed pipeline holds transforms alone.
pub proof fn lemma_sp_transforms_rank(s: Seq<char>, i: int)
    requires
        0 <= i <= s.len(),
    ensures
        forall|k: int|
            0 <= k < sp_transforms(s, i).0.len() ==> filter_rank(
                #[trigger] sp_transforms(s, i).0[k],
            ) == 0,
    decreases s.len() - i,
{
    if sp_tag(s, i, "|"@) {
        match sp_transform(s, i + "|"@.len()) {
            Some((f, j)) => {
                if i < j <= s.len() {
                    lemma_sp_transforms_rank(s, j);
                    assert forall|k: int| 0 <= k < sp_transforms(s, i).0.len() implies filter_rank(
                        #[trigger] sp_transforms(s, i).0[k],
                    ) == 0 by {
                        if k > 0 {
                            assert(sp_transforms(s, i).0[k] == sp_transforms(s, j).0[k - 1]);
                        }
                    }
                }
            },
            None => {},
        }
    }
}

/// Whatever filter pipeline the grammar accepts is in grammar order. A
/// filter token in the wrong relative position cannot parse: this ordering
/// is a deliberate grammar constraint.
pub proof fn lemma_sp_filters_ordered(s: Seq<char>, i: int)
    requires
        0 <= i <= s.len(),
    ensures
        pipeline_ordered(sp_filters(s, i).0),
{
    lemma_sp_transforms_rank(s, i);
    let (ts, p1) = sp_transforms(s, i);
    let fs = sp_filters(s, i).0;
    assert forall|a: int, b: int| 0 <= a < b < fs.len() implies (filter_rank(#[trigger] fs[a])
        < filter_rank(#[trigger] fs[b]) || (filter_rank(fs[a]) == 0 && filter_rank(fs[b])
        == 0)) by {
        if a < ts.len() {
            assert(fs[a] == ts[a]);
        }
        if b < ts.len() {
            assert(fs[b] == ts[b]);
        }
    }
}

// ---------------------------------------------------------------------------
// Namespace rewriting
// ---------------------------------------------------------------------------
/// Under a namespace pragma, every internal interpolation target of a rule
/// is rewritten to the namespace-prefixed identifier, and an external
/// interpolation target is never rewritten.
pub proof fn lemma_namespace_rewrite(ns: Seq<char>, r: RuleModel, k: int)
    requires
        0 <= k < r.parts.len(),
    ensures
        r.parts[k] matches RuleInstModel::Interpolation(id, fs) ==> ns_rewrite_rule(
            Some(ns),
            r,
        ).parts[k] == RuleInstModel::Interpolation(ns_prefixed(ns, id), fs),
        !(r.parts[k] is Interpolation) ==> ns_rewrite_rule(Some(ns), r).parts[k] == r.parts[k],
{
    assert(ns_rewrite_rule(Some(ns), r).parts[k] == crate::model::ns_rewrite_inst(
        ns,
        r.parts[k],
    ));
}

// ---------------------------------------------------------------------------
// Round trips
// ---------------------------------------------------------------------------
/// A rule whose recorded source text re-parses, through the rule-body
/// grammar alone, to exactly its part sequence.
pub open spec fn rule_round_trips(r: RuleModel) -> bool {
    sp_body(r.raw) == Some(r.parts)
}

/// Round trip: the raw text a rule line records re-parses to exactly the
/// rule's parts. The executable entry point `rule` realises the re-parse,
/// by its contract.
pub proof fn lemma_rule_round_trip(s: Seq<char>, i: int)
    requires
        0 <= i <= s.len(),
        sp_rule_line(s, i) is Some,
    ensures
        rule_round_trips(sp_rule_line(s, i).unwrap().0),
{
}

/// Every rule of a parsed rule block round-trips.
pub proof fn lemma_sp_rules_rest_round_trip(s: Seq<char>, j: int)
    requires
        0 <= j <= s.len(),
    ensures
        forall|k: int|
            0 <= k < sp_rules_rest(s, j).0.len() ==> rule_round_trips(
                #[trigger] sp_rules_rest(s, j).0[k],
            ),
    decreases s.len() - j,
{
    match crate::parser::sp_eol(s, j) {
        Some(t) => {
            if j < t <= s.len() {
                match sp_rule_line(s, t) {
                    Some((r1, m)) => {
                        lemma_rule_round_trip(s, t);
                        if j < m <= s.len() {
                            lemma_sp_rules_rest_round_trip(s, m);
                            assert forall|k: int|
                                0 <= k < sp_rules_rest(s, j).0.len() implies rule_round_trips(
                                #[trigger] sp_rules_rest(s, j).0[k],
                            ) by {
                                if k > 0 {
                                    assert(sp_rules_rest(s, j).0[k] == sp_rules_rest(s, m).0[k
                                        - 1]);
                                }
                            }
                        }
                    },
                    None => {},
                }
            }
        },
        None => {},
    }
}

/// Every rule of a parsed table round-trips: re-parsing each stored `raw`
/// text through the rule-body grammar reproduces its part sequence. For a
/// namespace-pragma'd table the constructed definition then rewrites those
/// parts, as `TableDefinition::new` states.
pub proof fn lemma_sp_table_round_trip(s: Seq<char>, i: int)
    requires
        0 <= i <= s.len(),
        sp_table(s, i) is Some,
    ensures
        forall|k: int|
            0 <= k < sp_table(s, i).unwrap().0.rules.len() ==> rule_round_trips(
                #[trigger] sp_table(s, i).unwrap().0.rules[k],
            ),
{
    let pragma = crate::parser::sp_pragma(s, i);
    let p: int = match pragma {
        Some((n, j)) => j,
        None => i,
    };
    crate::parser::lemma_sp_pragma_bounds(s, i);
    crate::parser::lemma_sp_frontmatter_bounds(s, p);
    let q = crate::parser::sp_frontmatter(s, p).unwrap().1;
    let (r0, j) = sp_rule_line(s, q).unwrap();
    lemma_rule_round_trip(s, q);
    if q <= j <= s.len() {
        lemma_sp_rules_rest_round_trip(s, j);
        assert forall|k: int| 0 <= k < sp_table(s, i).unwrap().0.rules.len() implies
            rule_round_trips(#[trigger] sp_table(s, i).unwrap().0.rules[k]) by {
            if k > 0 {
                assert(sp_table(s, i).unwrap().0.rules[k] == sp_rules_rest(s, j).0[k - 1]);
            } else {
                assert(sp_table(s, i).unwrap().0.rules[0] == r0);
            }
        }
    }
}

} // verus!
