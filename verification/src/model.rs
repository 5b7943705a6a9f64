//! The data model: errors, filters, rule parts, rules, and the
//! specification-level view types that contracts are stated over.
use vstd::prelude::*;

use vstd::string::StrSliceExecFns;
use vstd::string::StringExecFns;

use crate::text::upper_of;

verus! {

broadcast use vstd::seq::Seq::lemma_push_map_commute, vstd::seq::Seq::lemma_map_take_succ;

/// The largest value accepted for a dice count, a dice side count, or a
/// uniqueness count. Keeping each factor within 32 bits lets every dice sum
/// fit in a `u64`.
pub const PART_BOUND: u64 = 0xffff_ffff;

/// Weights are parsed as decimal numbers and held in fixed point, in
/// millionths: the weight `1.5` is held as `1_500_000`.
pub const WEIGHT_SCALE: u64 = 1_000_000;

/// The error taxonomy of the crate.
///
/// `ParseError` carries a human-readable expectation and the character offset
/// at which parsing failed. `InvalidDefinition` names a structurally broken
/// authored table. `CallError` reports an unknown local table, an exhausted
/// uniqueness retry budget, or an exhausted recursion budget.
/// `MissingDependencyError` carries a message and the unresolved
/// namespace-qualified identifier, so the caller can supply the missing
/// import.
#[derive(Debug, Clone)]
pub enum TableError {
    ParseError(String, usize),
    InvalidDefinition(String),
    CallError(String),
    MissingDependencyError(String, String),
}

/// A post-processing filter applied to an interpolation's resolved text.
#[derive(Debug, PartialEq)]
pub enum FilterOp {
    DefiniteArticle,
    IndefiniteArticle,
    Capitalize,
    Unique(u64),
    Join(String, Option<String>),
}

/// The mathematical view of a [`FilterOp`].
pub enum FilterModel {
    Definite,
    Indefinite,
    Capitalize,
    Unique(u64),
    Join(Seq<char>, Option<Seq<char>>),
}

impl View for FilterOp {
    type V = FilterModel;

    open spec fn view(&self) -> FilterModel {
        match self {
            FilterOp::DefiniteArticle => FilterModel::Definite,
            FilterOp::IndefiniteArticle => FilterModel::Indefinite,
            FilterOp::Capitalize => FilterModel::Capitalize,
            FilterOp::Unique(n) => FilterModel::Unique(*n),
            FilterOp::Join(sep, conj) => FilterModel::Join(
                sep@,
                match conj {
                    Some(c) => Some(c@),
                    None => None,
                },
            ),
        }
    }
}

/// One part of a rule's body.
#[derive(Debug, PartialEq)]
pub enum RuleInst {
    /// `(count, sides)`: the sum of `count` draws over `[1, sides]`.
    DiceRoll(u64, u64),
    /// Verbatim text.
    Literal(String),
    /// `(table id, filters)`: a reference to a table of this collection.
    Interpolation(String, Vec<FilterOp>),
    /// `(namespace, table id, namespaced id, filters)`: a reference to a
    /// table qualified by a namespace, possibly of another collection.
    ExternalInterpolation(String, String, String, Vec<FilterOp>),
}

/// The mathematical view of a [`RuleInst`].
pub enum RuleInstModel {
    DiceRoll(u64, u64),
    Literal(Seq<char>),
    Interpolation(Seq<char>, Seq<FilterModel>),
    ExternalInterpolation(Seq<char>, Seq<char>, Seq<char>, Seq<FilterModel>),
}

impl View for RuleInst {
    type V = RuleInstModel;

    open spec fn view(&self) -> RuleInstModel {
        match self {
            RuleInst::DiceRoll(c, s) => RuleInstModel::DiceRoll(*c, *s),
            RuleInst::Literal(t) => RuleInstModel::Literal(t@),
            RuleInst::Interpolation(id, fs) => RuleInstModel::Interpolation(
                id@,
                fs@.map_values(|f: FilterOp| f@),
            ),
            RuleInst::ExternalInterpolation(ns, id, nsid, fs) => {
                RuleInstModel::ExternalInterpolation(
                    ns@,
                    id@,
                    nsid@,
                    fs@.map_values(|f: FilterOp| f@),
                )
            },
        }
    }
}

/// One weighted variant of a table's output.
#[derive(Debug, PartialEq)]
pub struct Rule {
    /// The source text of the rule body, for diagnostics and round-trips.
    pub raw: String,
    /// The rule's weight, in millionths (see [`WEIGHT_SCALE`]).
    pub weight: u64,
    /// The ordered parts whose resolutions are concatenated left-to-right.
    pub parts: Vec<RuleInst>,
}

/// The mathematical view of a [`Rule`].
pub struct RuleModel {
    pub raw: Seq<char>,
    pub weight: u64,
    pub parts: Seq<RuleInstModel>,
}

impl View for Rule {
    type V = RuleModel;

    open spec fn view(&self) -> RuleModel {
        RuleModel {
            raw: self.raw@,
            weight: self.weight,
            parts: self.parts@.map_values(|p: RuleInst| p@),
        }
    }
}

impl Clone for FilterOp {
    fn clone(&self) -> (res: Self)
        ensures
            res@ == self@,
    {
        match self {
            FilterOp::DefiniteArticle => FilterOp::DefiniteArticle,
            FilterOp::IndefiniteArticle => FilterOp::IndefiniteArticle,
            FilterOp::Capitalize => FilterOp::Capitalize,
            FilterOp::Unique(n) => FilterOp::Unique(*n),
            FilterOp::Join(sep, conj) => FilterOp::Join(
                sep.clone(),
                match conj {
                    Some(c) => Some(c.clone()),
                    None => None,
                },
            ),
        }
    }
}

/// Copies a filter pipeline, preserving its view.
pub fn clone_filters(fs: &Vec<FilterOp>) -> (res: Vec<FilterOp>)
    ensures
        res@.map_values(|f: FilterOp| f@) == fs@.map_values(|f: FilterOp| f@),
{
    let mut out: Vec<FilterOp> = Vec::new();
    let mut i: usize = 0;
    assert(out@.map_values(|f: FilterOp| f@) =~= fs@.take(0).map_values(|f: FilterOp| f@));
    while i < fs.len()
        invariant
            i <= fs.len(),
            out@.len() == i,
            out@.map_values(|f: FilterOp| f@) == fs@.take(i as int).map_values(|f: FilterOp| f@),
        decreases fs.len() - i,
    {
        out.push(fs[i].clone());
        assert(out@.map_values(|f: FilterOp| f@) =~= fs@.take(i as int + 1).map_values(
            |f: FilterOp| f@,
        ));
        i += 1;
    }
    assert(fs@.take(fs@.len() as int) =~= fs@);
    out
}

impl Clone for RuleInst {
    fn clone(&self) -> (res: Self)
        ensures
            res@ == self@,
    {
        match self {
            RuleInst::DiceRoll(c, s) => RuleInst::DiceRoll(*c, *s),
            RuleInst::Literal(t) => RuleInst::Literal(t.clone()),
            RuleInst::Interpolation(id, fs) => RuleInst::Interpolation(
                id.clone(),
                clone_filters(fs),
            ),
            RuleInst::ExternalInterpolation(ns, id, nsid, fs) => RuleInst::ExternalInterpolation(
                ns.clone(),
                id.clone(),
                nsid.clone(),
                clone_filters(fs),
            ),
        }
    }
}

impl Clone for Rule {
    fn clone(&self) -> (res: Self)
        ensures
            res@ == self@,
    {
        let mut parts: Vec<RuleInst> = Vec::new();
        let mut i: usize = 0;
        assert(parts@.map_values(|p: RuleInst| p@) =~= self.parts@.take(0).map_values(
            |p: RuleInst| p@,
        ));
        while i < self.parts.len()
            invariant
                i <= self.parts.len(),
                parts@.len() == i,
                parts@.map_values(|p: RuleInst| p@) == self.parts@.take(i as int).map_values(
                    |p: RuleInst| p@,
                ),
            decreases self.parts.len() - i,
        {
            parts.push(self.parts[i].clone());
            assert(parts@.map_values(|p: RuleInst| p@) =~= self.parts@.take(
                i as int + 1,
            ).map_values(|p: RuleInst| p@));
            i += 1;
        }
        assert(self.parts@.take(self.parts@.len() as int) =~= self.parts@);
        Rule { raw: self.raw.clone(), weight: self.weight, parts }
    }
}

/// Structural well-formedness of a filter: uniqueness counts are at least two
/// and bounded.
pub open spec fn filter_wf(f: FilterModel) -> bool {
    match f {
        FilterModel::Unique(n) => 2 <= n && n <= PART_BOUND,
        _ => true,
    }
}

/// Structural well-formedness of a rule part: dice counts and sides are
/// positive and bounded, and filters are well-formed.
pub open spec fn inst_wf(p: RuleInstModel) -> bool {
    match p {
        RuleInstModel::DiceRoll(c, s) => 1 <= c && c <= PART_BOUND && 1 <= s && s <= PART_BOUND,
        RuleInstModel::Literal(_) => true,
        RuleInstModel::Interpolation(_, fs) => forall|i: int|
            0 <= i < fs.len() ==> filter_wf(#[trigger] fs[i]),
        RuleInstModel::ExternalInterpolation(_, _, _, fs) => forall|i: int|
            0 <= i < fs.len() ==> filter_wf(#[trigger] fs[i]),
    }
}

/// Structural well-formedness of a rule: every part is well-formed.
pub open spec fn rule_wf(r: RuleModel) -> bool {
    forall|i: int| 0 <= i < r.parts.len() ==> inst_wf(#[trigger] r.parts[i])
}

/// The filters of a part, or the empty sequence for parts that have none.
pub open spec fn filters_of(p: RuleInstModel) -> Seq<FilterModel> {
    match p {
        RuleInstModel::Interpolation(_, fs) => fs,
        RuleInstModel::ExternalInterpolation(_, _, _, fs) => fs,
        _ => Seq::empty(),
    }
}

/// What one transform filter does to a value. `Unique` and `Join` do not
/// transform the value itself.
pub open spec fn apply_one(f: FilterModel, t: Seq<char>) -> Seq<char> {
    match f {
        FilterModel::Definite => "the "@ + t,
        FilterModel::Indefinite => {
            if t.len() > 0 && (t[0] == 'a' || t[0] == 'e' || t[0] == 'i' || t[0] == 'o' || t[0]
                == 'u') {
                "an "@ + t
            } else {
                "a "@ + t
            }
        },
        FilterModel::Capitalize => {
            if t.len() == 0 {
                t
            } else {
                upper_of(t[0]) + t.skip(1)
            }
        },
        FilterModel::Unique(_) => t,
        FilterModel::Join(_, _) => t,
    }
}

/// The result of applying a filter pipeline to a value, left to right.
pub open spec fn apply_filters(fs: Seq<FilterModel>, t: Seq<char>) -> Seq<char>
    decreases fs.len(),
{
    if fs.len() == 0 {
        t
    } else {
        apply_filters(fs.skip(1), apply_one(fs[0], t))
    }
}

/// How many distinct results an interpolation must collect: the count of its
/// first `Unique` filter, or one.
pub open spec fn unique_count(fs: Seq<FilterModel>) -> u64
    decreases fs.len(),
{
    if fs.len() == 0 {
        1u64
    } else {
        match fs[0] {
            FilterModel::Unique(n) => n,
            _ => unique_count(fs.skip(1)),
        }
    }
}

/// A well-formed pipeline asks for at least one result and no more than the
/// bound.
pub proof fn lemma_unique_count_pos(fs: Seq<FilterModel>)
    requires
        forall|i: int| 0 <= i < fs.len() ==> filter_wf(#[trigger] fs[i]),
    ensures
        1 <= unique_count(fs) <= PART_BOUND,
    decreases fs.len(),
{
    if fs.len() > 0 {
        assert(filter_wf(fs[0]));
        match fs[0] {
            FilterModel::Unique(n) => {},
            _ => {
                assert forall|i: int| 0 <= i < fs.skip(1).len() implies filter_wf(
                    #[trigger] fs.skip(1)[i],
                ) by {
                    assert(fs.skip(1)[i] == fs[i + 1]);
                }
                lemma_unique_count_pos(fs.skip(1));
            },
        }
    }
}

/// The separator and optional conjunction of the first `Join` filter, or the
/// empty separator and no conjunction.
pub open spec fn join_of(fs: Seq<FilterModel>) -> (Seq<char>, Option<Seq<char>>)
    decreases fs.len(),
{
    if fs.len() == 0 {
        (Seq::empty(), None)
    } else {
        match fs[0] {
            FilterModel::Join(sep, conj) => (sep, conj),
            _ => join_of(fs.skip(1)),
        }
    }
}

/// The elements of `rs` joined with `sep` between each adjacent pair.
pub open spec fn join_plain(rs: Seq<Seq<char>>, sep: Seq<char>) -> Seq<char>
    decreases rs.len(),
{
    if rs.len() == 0 {
        Seq::empty()
    } else if rs.len() == 1 {
        rs[0]
    } else {
        rs[0] + sep + join_plain(rs.skip(1), sep)
    }
}

/// The join of collected results: when a conjunction was supplied and more
/// than one result was collected, all but the last are joined with the
/// separator, then the conjunction and the last result follow; otherwise the
/// plain separator join.
pub open spec fn join_results(
    rs: Seq<Seq<char>>,
    sep: Seq<char>,
    conj: Option<Seq<char>>,
) -> Seq<char> {
    match conj {
        Some(c) => {
            if rs.len() > 1 {
                join_plain(rs.take(rs.len() - 1), sep) + c + rs[rs.len() - 1]
            } else {
                join_plain(rs, sep)
            }
        },
        None => join_plain(rs, sep),
    }
}

/// A namespace-qualified identifier: `namespace`, `/`, identifier.
pub open spec fn ns_prefixed(ns: Seq<char>, id: Seq<char>) -> Seq<char> {
    ns + "/"@ + id
}

/// The fully-qualified identifier of a table: prefixed by its namespace when
/// one is present.
pub open spec fn ns_id(ns: Option<Seq<char>>, id: Seq<char>) -> Seq<char> {
    match ns {
        Some(n) => ns_prefixed(n, id),
        None => id,
    }
}

/// Namespace rewriting of one rule part: internal interpolation targets are
/// prefixed; external interpolation targets are never rewritten.
pub open spec fn ns_rewrite_inst(ns: Seq<char>, p: RuleInstModel) -> RuleInstModel {
    match p {
        RuleInstModel::Interpolation(id, fs) => RuleInstModel::Interpolation(
            ns_prefixed(ns, id),
            fs,
        ),
        _ => p,
    }
}

/// Namespace rewriting of a whole rule.
pub open spec fn ns_rewrite_rule(ns: Option<Seq<char>>, r: RuleModel) -> RuleModel {
    match ns {
        Some(n) => RuleModel {
            raw: r.raw,
            weight: r.weight,
            parts: r.parts.map_values(|p: RuleInstModel| ns_rewrite_inst(n, p)),
        },
        None => r,
    }
}

/// Builds the fully-qualified identifier of a table: `ns/id` when a namespace
/// is present, the identifier alone otherwise.
pub fn format_namespaced_id(namespace: &Option<String>, id: String) -> (r: String)
    ensures
        r@ == ns_id(
            match namespace {
                Some(n) => Some(n@),
                None => None,
            },
            id@,
        ),
{
    match namespace {
        Some(ns) => ns.clone().concat("/").concat(id.as_str()),
        None => id,
    }
}

/// Rewrites every internal interpolation target of every rule to the
/// namespace-prefixed identifier, when a namespace is in use. External
/// interpolation targets are already fully qualified and are left alone.
pub fn namespaced_rules(namespace: &Option<String>, rules: Vec<Rule>) -> (r: Vec<Rule>)
    ensures
        r@.map_values(|x: Rule| x@) == rules@.map_values(|x: Rule| x@).map_values(
            |m: RuleModel| ns_rewrite_rule(
                match namespace {
                    Some(n) => Some(n@),
                    None => None,
                },
                m,
            ),
        ),
{
    match namespace {
        Some(ns) => {
            let mut out: Vec<Rule> = Vec::new();
            let mut k: usize = 0;
            while k < rules.len()
                invariant
                    k <= rules.len(),
                    out@.len() == k,
                    forall|t: int| 0 <= t < k ==> (#[trigger] out@[t])@ == ns_rewrite_rule(
                        Some(ns@),
                        rules@[t]@,
                    ),
                decreases rules.len() - k,
            {
                let rule = &rules[k];
                let mut parts: Vec<RuleInst> = Vec::new();
                let mut j: usize = 0;
                while j < rule.parts.len()
                    invariant
                        j <= rule.parts.len(),
                        parts@.len() == j,
                        forall|t: int| 0 <= t < j ==> (#[trigger] parts@[t])@ == ns_rewrite_inst(
                            ns@,
                            rule.parts@[t]@,
                        ),
                    decreases rule.parts.len() - j,
                {
                    let part = &rule.parts[j];
                    let rewritten: RuleInst = match part {
                        RuleInst::Interpolation(id, fs) => RuleInst::Interpolation(
                            ns.clone().concat("/").concat(id.as_str()),
                            clone_filters(fs),
                        ),
                        other => other.clone(),
                    };
                    assert(rewritten@ == ns_rewrite_inst(ns@, rule.parts@[j as int]@));
                    parts.push(rewritten);
                    j += 1;
                }
                let new_rule = Rule { raw: rule.raw.clone(), weight: rule.weight, parts };
                assert(new_rule@.parts =~= ns_rewrite_rule(Some(ns@), rules@[k as int]@).parts);
                out.push(new_rule);
                k += 1;
            }
            assert(out@.map_values(|x: Rule| x@) =~= rules@.map_values(|x: Rule| x@).map_values(
                |m: RuleModel| ns_rewrite_rule(Some(ns@), m),
            ));
            out
        },
        None => {
            assert(rules@.map_values(|x: Rule| x@) =~= rules@.map_values(|x: Rule| x@).map_values(
                |m: RuleModel| ns_rewrite_rule(None, m),
            ));
            rules
        },
    }
}


impl FilterOp {
    /// Applies one filter to a resolved value. `DefiniteArticle` prepends
    /// `"the "`; `IndefiniteArticle` prepends `"an "` before a lowercase
    /// vowel and `"a "` otherwise; `Capitalize` uppercases only the first
    /// character; `Unique` and `Join` leave the value unchanged here and
    /// steer the sampling loop instead.
    pub fn apply(&self, value: &mut String)
        ensures
            final(value)@ == apply_one(self@, old(value)@),
    {
        match self {
            FilterOp::DefiniteArticle => {
                let new_value = String::from_str("the ").concat(value.as_str());
                *value = new_value;
            },
            FilterOp::IndefiniteArticle => {
                let n = value.as_str().unicode_len();
                let mut vowel = false;
                if n > 0 {
                    let c = value.as_str().get_char(0);
                    vowel = c == 'a' || c == 'e' || c == 'i' || c == 'o' || c == 'u';
                }
                let article = if vowel {
                    "an "
                } else {
                    "a "
                };
                let new_value = String::from_str(article).concat(value.as_str());
                *value = new_value;
            },
            FilterOp::Capitalize => {
                let n = value.as_str().unicode_len();
                if n > 0 {
                    let first = value.as_str().get_char(0);
                    let rest = value.as_str().substring_char(1, n);
                    let new_value = crate::text::char_upper(first).concat(rest);
                    proof {
                        assert(old(value)@.subrange(1, old(value)@.len() as int) =~= old(
                            value,
                        )@.skip(1));
                    }
                    *value = new_value;
                }
            },
            FilterOp::Unique(_) => {},
            FilterOp::Join(_, _) => {},
        }
    }
}

} // verus!
