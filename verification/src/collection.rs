//! The data model's owning types and the resolution engine: table
//! definitions with their weighted distributions, the table collection, the
//! recursive rule resolution with filters, uniqueness/retry and join
//! semantics, and the collection validator.
use vstd::prelude::*;

use vstd::string::StringExecFns;

use crate::model::FilterModel;
use crate::model::FilterOp;
use crate::model::Rule;
use crate::model::RuleInst;
use crate::model::RuleInstModel;
use crate::model::RuleModel;
use crate::model::TableError;
use crate::model::format_namespaced_id;
use crate::model::namespaced_rules;
use crate::model::ns_id;
use crate::model::ns_rewrite_rule;
use crate::model::rule_wf;
use crate::sampler::WeightedDist;
use crate::sampler::dist_weights;
use crate::sampler::valid_weights;

verus! {

broadcast use
    vstd::seq::Seq::lemma_push_map_commute,
    vstd::seq::Seq::lemma_map_take_succ,
    vstd::seq::Seq::lemma_filter_map_take_succ,
    vstd::seq::Seq::lemma_push_to_set_commute,
    vstd::seq_lib::seq_to_set_is_finite;


/// How many failed attempts a uniqueness-constrained interpolation may make
/// before resolution fails.
pub const UNIQUE_GEN_LIMIT: u64 = 20;

/// How deep interpolation may recurse before generation fails: the bulkhead
/// against cyclic table references.
pub const RECURSION_LIMIT: u64 = 128;

/// One named table: its fully-qualified identifier, optional namespace,
/// title, export flag, rules, their weights, and the weighted-sampling
/// structure built from those weights.
#[derive(Debug)]
pub struct TableDefinition {
    pub id: String,
    pub namespace: Option<String>,
    pub title: String,
    pub export: bool,
    pub rules: Vec<Rule>,
    pub weights: Vec<u64>,
    pub distribution: WeightedDist,
}

/// The mathematical view of a [`TableDefinition`].
pub struct TableDefModel {
    pub id: Seq<char>,
    pub namespace: Option<Seq<char>>,
    pub title: Seq<char>,
    pub export: bool,
    pub rules: Seq<RuleModel>,
    pub weights: Seq<u64>,
}

impl View for TableDefinition {
    type V = TableDefModel;

    open spec fn view(&self) -> TableDefModel {
        TableDefModel {
            id: self.id@,
            namespace: match &self.namespace {
                Some(n) => Some(n@),
                None => None,
            },
            title: self.title@,
            export: self.export,
            rules: self.rules@.map_values(|x: Rule| x@),
            weights: self.weights@,
        }
    }
}

/// The weights of a rule sequence, in order.
pub open spec fn weights_of(rules: Seq<RuleModel>) -> Seq<u64> {
    rules.map_values(|r: RuleModel| r.weight)
}

/// What construction builds from parser output: the namespace-prefixed
/// identifier, the namespace-rewritten rules, and the weights drawn from the
/// rules.
pub open spec fn def_of(
    ns: Option<Seq<char>>,
    id: Seq<char>,
    title: Seq<char>,
    export: bool,
    rules: Seq<RuleModel>,
) -> TableDefModel {
    TableDefModel {
        id: ns_id(ns, id),
        namespace: ns,
        title,
        export,
        rules: rules.map_values(|m: RuleModel| ns_rewrite_rule(ns, m)),
        weights: weights_of(rules),
    }
}

impl TableDefinition {
    /// Structural well-formedness: the weights run parallel to the rules, can
    /// build a distribution, the held distribution was built from them, and
    /// every rule is well-formed.
    pub open spec fn wf(&self) -> bool {
        &&& self@.weights == weights_of(self@.rules)
        &&& valid_weights(self@.weights)
        &&& dist_weights(self.distribution) == self@.weights
        &&& forall|i: int| 0 <= i < self@.rules.len() ==> rule_wf(#[trigger] self@.rules[i])
    }

    /// Builds one table definition: computes the fully-qualified identifier,
    /// rewrites internal interpolation targets under the namespace, and
    /// builds the weighted-sampling structure from the rule weights.
    /// Construction fails exactly when the weights cannot build one: when the
    /// rules are empty, their total weight is zero, or it does not fit.
    pub fn new(
        id: String,
        namespace: Option<String>,
        title: String,
        export: bool,
        rules: Vec<Rule>,
    ) -> (r: Result<TableDefinition, TableError>)
        ensures
            ({
                let ns = match namespace {
                    Some(n) => Some(n@),
                    None => None,
                };
                let m = def_of(ns, id@, title@, export, rules@.map_values(|x: Rule| x@));
                &&& (r is Ok <==> valid_weights(m.weights))
                &&& r is Ok ==> r.unwrap()@ == m
                &&& r is Ok ==> (forall|i: int|
                    0 <= i < rules@.len() ==> rule_wf(#[trigger] (rules@[i]@))) ==> r.unwrap().wf()
                &&& r is Err ==> r.unwrap_err() is InvalidDefinition
            }),
    {
        let ghost rules_m = rules@.map_values(|x: Rule| x@);
        let mut weights: Vec<u64> = Vec::new();
        let mut k: usize = 0;
        while k < rules.len()
            invariant
                k <= rules.len(),
                weights@.len() == k,
                weights@ == weights_of(rules@.map_values(|x: Rule| x@)).take(k as int),
            decreases rules.len() - k,
        {
            weights.push(rules[k].weight);
            proof {
                assert(weights@ =~= weights_of(rules@.map_values(|x: Rule| x@)).take(k + 1));
            }
            k += 1;
        }
        proof {
            assert(weights_of(rules@.map_values(|x: Rule| x@)).take(rules@.len() as int)
                =~= weights_of(rules@.map_values(|x: Rule| x@)));
        }
        let identifier = format_namespaced_id(&namespace, id);
        let rules = namespaced_rules(&namespace, rules);
        let distribution = match WeightedDist::new(&weights) {
            Ok(d) => d,
            Err(e) => {
                return Err(e);
            },
        };
        let def = TableDefinition {
            id: identifier,
            namespace,
            title,
            export,
            rules,
            weights,
            distribution,
        };
        proof {
            let ns = match &def.namespace {
                Some(n) => Some(n@),
                None => None,
            };
            let m = def_of(ns, def.id@, def.title@, def.export, rules_m);
            assert(def@.rules =~= m.rules);
            assert forall|i: int| 0 <= i < def@.rules.len() implies (#[trigger] def@.rules[i]).weight
                == rules_m[i].weight by {
                assert(def@.rules[i] == ns_rewrite_rule(ns, rules_m[i]));
            }
            assert(def@.weights =~= weights_of(def@.rules));
            assert forall|i: int|
                0 <= i < def@.rules.len() && rule_wf(rules_m[i]) implies rule_wf(
                #[trigger] def@.rules[i],
            ) by {
                assert(def@.rules[i] == ns_rewrite_rule(ns, rules_m[i]));
                let rw = def@.rules[i];
                assert forall|j: int| 0 <= j < rw.parts.len() implies crate::model::inst_wf(
                    #[trigger] rw.parts[j],
                ) by {
                    assert(crate::model::inst_wf(rules_m[i].parts[j]));
                }
            }
        }
        Ok(def)
    }
}

/// The namespaces of the external interpolations of one rule, in order.
pub open spec fn ext_ns_f() -> spec_fn(RuleInstModel) -> Option<Seq<char>> {
    |p: RuleInstModel|
        match p {
            RuleInstModel::ExternalInterpolation(ns, _, _, _) => Some(ns),
            _ => None,
        }
}

/// The external namespaces referenced by a rule.
pub open spec fn rule_externals(r: RuleModel) -> Seq<Seq<char>> {
    r.parts.filter_map(ext_ns_f())
}

/// The external namespaces referenced by a table's rules, in order.
pub open spec fn def_externals(rules: Seq<RuleModel>) -> Seq<Seq<char>>
    decreases rules.len(),
{
    if rules.len() == 0 {
        Seq::empty()
    } else {
        rule_externals(rules[0]) + def_externals(rules.skip(1))
    }
}

impl Rule {
    /// The namespaces of this rule's external interpolations, in order.
    pub fn external_identifiers(&self) -> (r: Vec<String>)
        ensures
            r@.map_values(|s: String| s@) == rule_externals(self@),
    {
        let mut out: Vec<String> = Vec::new();
        let mut k: usize = 0;
        proof {
            assert(out@.map_values(|s: String| s@) =~= self@.parts.take(0).filter_map(ext_ns_f()));
        }
        while k < self.parts.len()
            invariant
                k <= self.parts.len(),
                out@.map_values(|s: String| s@) == self@.parts.take(k as int).filter_map(
                    ext_ns_f(),
                ),
            decreases self.parts.len() - k,
        {
            let ghost pre = self@.parts.take(k as int).filter_map(ext_ns_f());
            match &self.parts[k] {
                RuleInst::ExternalInterpolation(ns, _, _, _) => {
                    out.push(ns.clone());
                    proof {
                        assert(ext_ns_f()(self@.parts[k as int]) == Some(ns@));
                        assert(self@.parts.take(k + 1).filter_map(ext_ns_f()) =~= pre + seq![ns@]);
                        assert(out@.map_values(|s: String| s@) =~= pre + seq![ns@]);
                    }
                },
                _ => {
                    proof {
                        assert(ext_ns_f()(self@.parts[k as int]) is None);
                        assert(self@.parts.take(k + 1).filter_map(ext_ns_f()) =~= pre);
                    }
                },
            }
            k += 1;
        }
        proof {
            assert(self@.parts.take(self@.parts.len() as int) =~= self@.parts);
        }
        out
    }
}

impl TableDefinition {
    /// The namespaces of all external interpolations of this table's rules.
    pub fn external_identifiers(&self) -> (r: Vec<String>)
        ensures
            r@.map_values(|s: String| s@) == def_externals(self@.rules),
    {
        let mut out: Vec<String> = Vec::new();
        let mut k: usize = 0;
        proof {
            assert(out@.map_values(|s: String| s@) =~= Seq::<Seq<char>>::empty());
            lemma_def_externals_take(self@.rules, 0);
        }
        while k < self.rules.len()
            invariant
                k <= self.rules.len(),
                out@.map_values(|s: String| s@) == def_externals(self@.rules.take(k as int)),
            decreases self.rules.len() - k,
        {
            let mut part = self.rules[k].external_identifiers();
            let ghost pre = def_externals(self@.rules.take(k as int));
            let ghost part_m = part@.map_values(|s: String| s@);
            let mut t: usize = 0;
            while t < part.len()
                invariant
                    t <= part.len(),
                    part@.map_values(|s: String| s@) == part_m,
                    out@.map_values(|s: String| s@) == pre + part_m.take(t as int),
                decreases part.len() - t,
            {
                let x = part[t].clone();
                proof {
                    assert(part_m[t as int] == part@[t as int]@);
                }
                out.push(x);
                proof {
                    assert(out@.map_values(|s: String| s@) =~= pre + part_m.take(t + 1));
                }
                t += 1;
            }
            proof {
                assert(part_m.take(part_m.len() as int) =~= part_m);
                lemma_def_externals_take(self@.rules, k as int);
                assert(out@.map_values(|s: String| s@) =~= def_externals(
                    self@.rules.take(k + 1),
                ));
            }
            k += 1;
        }
        proof {
            assert(self@.rules.take(self@.rules.len() as int) =~= self@.rules);
        }
        out
    }
}

/// Extending a rule prefix by one rule appends that rule's external
/// namespaces.
pub proof fn lemma_def_externals_take(rules: Seq<RuleModel>, k: int)
    requires
        0 <= k <= rules.len(),
    ensures
        k < rules.len() ==> def_externals(rules.take(k + 1)) == def_externals(rules.take(k))
            + rule_externals(rules[k]),
        def_externals(rules.take(0)) == Seq::<Seq<char>>::empty(),
    decreases k,
{
    assert(rules.take(0) =~= Seq::<RuleModel>::empty());
    if k < rules.len() {
        lemma_def_externals_snoc(rules.take(k + 1));
        assert(rules.take(k + 1).drop_last() =~= rules.take(k));
        assert(rules.take(k + 1).last() == rules[k]);
    }
}

/// The external namespaces of a non-empty rule sequence are those of its
/// prefix followed by those of its last rule.
pub proof fn lemma_def_externals_snoc(rules: Seq<RuleModel>)
    requires
        rules.len() > 0,
    ensures
        def_externals(rules) == def_externals(rules.drop_last()) + rule_externals(rules.last()),
    decreases rules.len(),
{
    if rules.len() == 1 {
        assert(rules.drop_last() =~= Seq::<RuleModel>::empty());
        assert(rules.skip(1) =~= Seq::<RuleModel>::empty());
        assert(def_externals(rules.drop_last()) + rule_externals(rules.last()) =~= def_externals(
            rules,
        ));
    } else {
        lemma_def_externals_snoc(rules.skip(1));
        assert(rules.skip(1).drop_last() =~= rules.drop_last().skip(1));
        assert(rules.skip(1).last() == rules.last());
        assert(rules.drop_last()[0] == rules[0]);
        assert(def_externals(rules) =~= def_externals(rules.drop_last()) + rule_externals(
            rules.last(),
        ));
    }
}

/// A collection of tables: a mapping from fully-qualified identifier to table
/// definition (held in insertion order; a later table with the same
/// identifier replaces an earlier one on lookup), plus the set of external
/// namespaces referenced by locally authored tables.
#[derive(Debug)]
pub struct TableCollection {
    tables: Vec<TableDefinition>,
    external_identifiers: Vec<String>,
}

/// The mathematical view of a [`TableCollection`].
pub struct CollectionModel {
    pub tables: Seq<TableDefModel>,
    pub externals: Seq<Seq<char>>,
}

impl View for TableCollection {
    type V = CollectionModel;

    closed spec fn view(&self) -> CollectionModel {
        CollectionModel {
            tables: self.tables@.map_values(|t: TableDefinition| t@),
            externals: self.external_identifiers@.map_values(|s: String| s@),
        }
    }
}

/// The table a fully-qualified identifier denotes: the last table with that
/// identifier, so that a later table silently replaces an earlier one.
pub open spec fn lookup(tables: Seq<TableDefModel>, id: Seq<char>) -> Option<TableDefModel>
    decreases tables.len(),
{
    if tables.len() == 0 {
        None
    } else if tables.last().id == id {
        Some(tables.last())
    } else {
        lookup(tables.drop_last(), id)
    }
}

/// What the identifier map guarantees of a found table, given it holds of
/// every table: the weights run parallel to the rules and can build a
/// distribution.
pub proof fn lemma_lookup_props(tables: Seq<TableDefModel>, id: Seq<char>)
    requires
        forall|i: int|
            0 <= i < tables.len() ==> valid_weights((#[trigger] tables[i]).weights) && tables[i].weights
                == weights_of(tables[i].rules),
    ensures
        lookup(tables, id) matches Some(m) ==> valid_weights(m.weights) && m.weights == weights_of(
            m.rules,
        ) && m.rules.len() > 0,
    decreases tables.len(),
{
    if tables.len() > 0 {
        assert(tables.last() == tables[tables.len() - 1]);
        if tables.last().id == id {
        } else {
            assert forall|i: int| 0 <= i < tables.drop_last().len() implies valid_weights(
                (#[trigger] tables.drop_last()[i]).weights,
            ) && tables.drop_last()[i].weights == weights_of(tables.drop_last()[i].rules) by {
                assert(tables.drop_last()[i] == tables[i]);
            }
            lemma_lookup_props(tables.drop_last(), id);
        }
    }
}

impl TableCollection {
    /// Structural well-formedness: every held table is well-formed.
    pub closed spec fn wf(&self) -> bool {
        forall|i: int| 0 <= i < self.tables@.len() ==> (#[trigger] self.tables@[i]).wf()
    }

    /// Builds a collection from already-constructed table definitions,
    /// accumulating the external namespaces referenced by tables authored
    /// locally (tables without a namespace; imported tables are taken as
    /// already validated by whoever produced them).
    pub fn from_tables(tables: Vec<TableDefinition>) -> (c: TableCollection)
        requires
            forall|i: int| 0 <= i < tables@.len() ==> (#[trigger] tables@[i]).wf(),
        ensures
            c.wf(),
            c@.tables == tables@.map_values(|t: TableDefinition| t@),
            c@.externals == collection_externals(tables@.map_values(|t: TableDefinition| t@)),
    {
        let mut externals: Vec<String> = Vec::new();
        let mut k: usize = 0;
        proof {
            lemma_collection_externals_take(tables@.map_values(|t: TableDefinition| t@), 0);
            assert(externals@.map_values(|s: String| s@) =~= Seq::<Seq<char>>::empty());
        }
        while k < tables.len()
            invariant
                k <= tables.len(),
                forall|i: int| 0 <= i < tables@.len() ==> (#[trigger] tables@[i]).wf(),
                externals@.map_values(|s: String| s@) == collection_externals(
                    tables@.map_values(|t: TableDefinition| t@).take(k as int),
                ),
            decreases tables.len() - k,
        {
            let ghost tms = tables@.map_values(|t: TableDefinition| t@);
            let ghost pre = collection_externals(tms.take(k as int));
            if tables[k].namespace.is_none() {
                let mut part = tables[k].external_identifiers();
                let ghost part_m = part@.map_values(|s: String| s@);
                let mut t: usize = 0;
                while t < part.len()
                    invariant
                        t <= part.len(),
                        part@.map_values(|s: String| s@) == part_m,
                        externals@.map_values(|s: String| s@) == pre + part_m.take(t as int),
                    decreases part.len() - t,
                {
                    let x = part[t].clone();
                    proof {
                        assert(part_m[t as int] == part@[t as int]@);
                    }
                    externals.push(x);
                    proof {
                        assert(externals@.map_values(|s: String| s@) =~= pre + part_m.take(t + 1));
                    }
                    t += 1;
                }
                proof {
                    assert(part_m.take(part_m.len() as int) =~= part_m);
                    lemma_collection_externals_take(tms, k as int);
                    assert(externals@.map_values(|s: String| s@) =~= collection_externals(
                        tms.take(k + 1),
                    ));
                }
            } else {
                proof {
                    lemma_collection_externals_take(tms, k as int);
                    assert(pre + Seq::<Seq<char>>::empty() =~= pre);
                    assert(externals@.map_values(|s: String| s@) =~= collection_externals(
                        tms.take(k + 1),
                    ));
                }
            }
            k += 1;
        }
        proof {
            let tms = tables@.map_values(|t: TableDefinition| t@);
            assert(tms.take(tms.len() as int) =~= tms);
        }
        TableCollection { tables, external_identifiers: externals }
    }

    /// The external namespaces referenced by locally authored tables.
    pub fn dependencies(&self) -> (r: Vec<String>)
        ensures
            r@.map_values(|s: String| s@) == self@.externals,
    {
        let mut out: Vec<String> = Vec::new();
        let mut k: usize = 0;
        proof {
            assert(out@.map_values(|s: String| s@) =~= self@.externals.take(0));
        }
        while k < self.external_identifiers.len()
            invariant
                k <= self.external_identifiers.len(),
                out@.map_values(|s: String| s@) == self@.externals.take(k as int),
            decreases self.external_identifiers.len() - k,
        {
            out.push(self.external_identifiers[k].clone());
            proof {
                assert(out@.map_values(|s: String| s@) =~= self@.externals.take(k + 1));
            }
            k += 1;
        }
        proof {
            assert(self@.externals.take(self@.externals.len() as int) =~= self@.externals);
        }
        out
    }

    /// Finds the index of the table a fully-qualified identifier denotes: the
    /// last one with that identifier.
    fn lookup_idx(&self, id: &str) -> (r: Option<usize>)
        ensures
            match lookup(self@.tables, id@) {
                Some(m) => {
                    &&& r is Some
                    &&& r.unwrap() < self.tables@.len()
                    &&& self.tables@[r.unwrap() as int]@ == m
                },
                None => r is None,
            },
    {
        let id_owned = id.to_owned();
        let mut k: usize = self.tables.len();
        proof {
            assert(self@.tables.take(k as int) =~= self@.tables);
        }
        while k > 0
            invariant
                k <= self.tables.len(),
                id_owned@ == id@,
                lookup(self@.tables, id@) == lookup(self@.tables.take(k as int), id@),
            decreases k,
        {
            k -= 1;
            proof {
                assert(self@.tables[k as int] == self.tables@[k as int]@);
                assert(self@.tables.take(k + 1).len() == k + 1);
                assert(self@.tables.take(k + 1).last() == self@.tables[k as int]);
                assert(self@.tables.take(k + 1).drop_last() =~= self@.tables.take(k as int));
            }
            if self.tables[k].id.eq(&id_owned) {
                proof {
                    assert(self@.tables[k as int].id == id@);
                    assert(self@.tables.take(k + 1).last().id == id@);
                    assert(lookup(self@.tables.take(k + 1), id@) == Some(self@.tables[k as int]));
                }
                return Some(k);
            }
            proof {
                assert(self.tables@[k as int].id@ != id_owned@);
                assert(self@.tables.take(k + 1).last().id != id@);
                assert(lookup(self@.tables.take(k + 1), id@) == lookup(
                    self@.tables.take(k as int),
                    id@,
                ));
            }
        }
        proof {
            assert(self@.tables.take(0) =~= Seq::<TableDefModel>::empty());
        }
        None
    }
}

/// The external namespaces referenced by the locally authored tables of a
/// collection, in order.
pub open spec fn collection_externals(tables: Seq<TableDefModel>) -> Seq<Seq<char>>
    decreases tables.len(),
{
    if tables.len() == 0 {
        Seq::empty()
    } else {
        let head = if tables[0].namespace is None {
            def_externals(tables[0].rules)
        } else {
            Seq::<Seq<char>>::empty()
        };
        head + collection_externals(tables.skip(1))
    }
}

/// Extending a table prefix by one table appends that table's external
/// namespaces, when it is authored locally.
pub proof fn lemma_collection_externals_take(tables: Seq<TableDefModel>, k: int)
    requires
        0 <= k <= tables.len(),
    ensures
        k < tables.len() ==> collection_externals(tables.take(k + 1)) == collection_externals(
            tables.take(k),
        ) + (if tables[k].namespace is None {
            def_externals(tables[k].rules)
        } else {
            Seq::<Seq<char>>::empty()
        }),
        collection_externals(tables.take(0)) == Seq::<Seq<char>>::empty(),
{
    assert(tables.take(0) =~= Seq::<TableDefModel>::empty());
    if k < tables.len() {
        lemma_collection_externals_snoc(tables.take(k + 1));
        assert(tables.take(k + 1).drop_last() =~= tables.take(k));
        assert(tables.take(k + 1).last() == tables[k]);
    }
}

/// The external namespaces of a non-empty table sequence are those of its
/// prefix followed by those of its last table.
pub proof fn lemma_collection_externals_snoc(tables: Seq<TableDefModel>)
    requires
        tables.len() > 0,
    ensures
        collection_externals(tables) == collection_externals(tables.drop_last()) + (if tables.last().namespace is None {
            def_externals(tables.last().rules)
        } else {
            Seq::<Seq<char>>::empty()
        }),
    decreases tables.len(),
{
    let tail = if tables.last().namespace is None {
        def_externals(tables.last().rules)
    } else {
        Seq::<Seq<char>>::empty()
    };
    if tables.len() == 1 {
        assert(tables.drop_last() =~= Seq::<TableDefModel>::empty());
        assert(tables.skip(1) =~= Seq::<TableDefModel>::empty());
        assert(collection_externals(tables) =~= collection_externals(tables.drop_last()) + tail);
    } else {
        lemma_collection_externals_snoc(tables.skip(1));
        assert(tables.skip(1).drop_last() =~= tables.drop_last().skip(1));
        assert(tables.skip(1).last() == tables.last());
        assert(tables.drop_last()[0] == tables[0]);
        assert(collection_externals(tables) =~= collection_externals(tables.drop_last()) + tail);
    }
}


// ---------------------------------------------------------------------------
// Resolution
// ---------------------------------------------------------------------------
/// A part whose resolution needs no other table: a literal or a dice roll.
pub open spec fn simple_part(p: RuleInstModel) -> bool {
    p is Literal || p is DiceRoll
}

/// A rule whose parts are all literals or dice rolls: it always resolves.
pub open spec fn simple_rule(r: RuleModel) -> bool {
    forall|k: int| 0 <= k < r.parts.len() ==> simple_part(#[trigger] r.parts[k])
}

/// A table all of whose rules are simple.
pub open spec fn all_simple(t: TableDefModel) -> bool {
    forall|i: int| 0 <= i < t.rules.len() ==> simple_rule(#[trigger] t.rules[i])
}

/// The table a rule part refers to, for the two interpolation kinds.
pub open spec fn interp_target(p: RuleInstModel) -> Option<Seq<char>> {
    match p {
        RuleInstModel::Interpolation(id, _) => Some(id),
        RuleInstModel::ExternalInterpolation(_, _, nsid, _) => Some(nsid),
        _ => None,
    }
}

/// A part whose resolution always succeeds within the recursion budget: a
/// literal, a dice roll, or an interpolation without a `Unique` filter whose
/// target is present and made of literals and dice rolls alone.
pub open spec fn easy_part(tables: Seq<TableDefModel>, p: RuleInstModel) -> bool {
    ||| simple_part(p)
    ||| {
        &&& interp_target(p) is Some
        &&& crate::model::unique_count(crate::model::filters_of(p)) == 1
        &&& (lookup(tables, interp_target(p).unwrap()) matches Some(t) && all_simple(t))
    }
}

/// A rule of easy parts alone: it always resolves.
pub open spec fn easy_rule(tables: Seq<TableDefModel>, r: RuleModel) -> bool {
    forall|k: int| 0 <= k < r.parts.len() ==> easy_part(tables, #[trigger] r.parts[k])
}

/// A table of easy rules alone: generation from it always succeeds.
pub open spec fn easy_table(tables: Seq<TableDefModel>, t: TableDefModel) -> bool {
    forall|i: int| 0 <= i < t.rules.len() ==> easy_rule(tables, #[trigger] t.rules[i])
}

/// The message reported when the uniqueness retry budget of a rule runs out.
pub open spec fn unique_fail_msg(raw: Seq<char>) -> Seq<char> {
    "Failed to generate unique result for rule "@ + raw + " after 20 attempts"@
}

/// The distinct texts a table of literal rules can hand an interpolation,
/// after the transform filters are applied to each.
pub open spec fn filtered_outputs(t: TableDefModel, fs: Seq<FilterModel>) -> Set<Seq<char>> {
    t.rules.map_values(
        |r: RuleModel| crate::model::apply_filters(fs, lit_concat(r.parts)),
    ).to_set()
}

/// A target that cannot meet an interpolation's uniqueness demand: a present
/// table of literal rules with fewer distinct filtered texts than the
/// demanded count.
pub open spec fn starved_target(
    tables: Seq<TableDefModel>,
    id: Seq<char>,
    fs: Seq<FilterModel>,
) -> bool {
    &&& lookup(tables, id) matches Some(ct) && literal_table(ct)
    &&& filtered_outputs(lookup(tables, id).unwrap(), fs).len() < crate::model::unique_count(fs)
}

/// A rule whose simple prefix ends at an external interpolation, without a
/// `Unique` filter, whose fully-qualified target is absent: its resolution
/// deterministically reports that missing dependency.
pub open spec fn blocked_external(tables: Seq<TableDefModel>, r: RuleModel, pi: int) -> bool {
    &&& 0 <= pi < r.parts.len()
    &&& (forall|j: int| 0 <= j < pi ==> simple_part(#[trigger] r.parts[j]))
    &&& match r.parts[pi] {
        RuleInstModel::ExternalInterpolation(_, _, nsid, fs) => crate::model::unique_count(fs)
            == 1 && lookup(tables, nsid) is None,
        _ => false,
    }
}

/// A rule whose simple prefix ends at an internal interpolation, without a
/// `Unique` filter, whose target is absent: its resolution deterministically
/// reports an invalid call.
pub open spec fn blocked_internal(tables: Seq<TableDefModel>, r: RuleModel, pi: int) -> bool {
    &&& 0 <= pi < r.parts.len()
    &&& (forall|j: int| 0 <= j < pi ==> simple_part(#[trigger] r.parts[j]))
    &&& match r.parts[pi] {
        RuleInstModel::Interpolation(id, fs) => crate::model::unique_count(fs) == 1 && lookup(
            tables,
            id,
        ) is None,
        _ => false,
    }
}

/// A rule whose simple prefix ends at an interpolation demanding more
/// distinct results than its target table of literal rules can produce: its
/// resolution deterministically exhausts the retry budget.
pub open spec fn blocked_starved(tables: Seq<TableDefModel>, r: RuleModel, pi: int) -> bool {
    &&& 0 <= pi < r.parts.len()
    &&& (forall|j: int| 0 <= j < pi ==> simple_part(#[trigger] r.parts[j]))
    &&& interp_target(r.parts[pi]) is Some
    &&& starved_target(tables, interp_target(r.parts[pi]).unwrap(), crate::model::filters_of(
        r.parts[pi],
    ))
}

/// A part whose resolution can fail only with a missing dependency: an easy
/// part, or an external interpolation without a `Unique` filter whose
/// fully-qualified target is absent.
pub open spec fn benign_part(tables: Seq<TableDefModel>, p: RuleInstModel) -> bool {
    ||| easy_part(tables, p)
    ||| {
        &&& p is ExternalInterpolation
        &&& crate::model::unique_count(crate::model::filters_of(p)) == 1
        &&& lookup(tables, interp_target(p).unwrap()) is None
    }
}

/// A rule of benign parts alone: it resolves, or reports a missing
/// dependency.
pub open spec fn benign_rule(tables: Seq<TableDefModel>, r: RuleModel) -> bool {
    forall|k: int| 0 <= k < r.parts.len() ==> benign_part(tables, #[trigger] r.parts[k])
}

/// Every rule of the table runs into a starved interpolation: generation
/// deterministically exhausts the retry budget, whichever rule is sampled.
pub open spec fn all_rules_starved(tables: Seq<TableDefModel>, t: TableDefModel) -> bool {
    forall|i: int|
        0 <= i < t.rules.len() ==> exists|pi: int|
            blocked_starved(tables, #[trigger] t.rules[i], pi)
}

/// The message names the raw text of one of the table's rules as having
/// exhausted the uniqueness retry budget.
pub open spec fn starved_msg_of(t: TableDefModel, m: Seq<char>) -> bool {
    exists|i: int| 0 <= i < t.rules.len() && m == unique_fail_msg((#[trigger] t.rules[i]).raw)
}

/// A table whose rules hold literal parts alone: it produces one of finitely
/// many fixed texts.
pub open spec fn literal_table(t: TableDefModel) -> bool {
    forall|i: int, k: int|
        0 <= i < t.rules.len() && 0 <= k < (#[trigger] t.rules[i]).parts.len() ==> (#[trigger] t.rules[i].parts[k]) is Literal
}

/// The concatenation of the texts of a rule made of literal parts.
pub open spec fn lit_concat(parts: Seq<RuleInstModel>) -> Seq<char>
    decreases parts.len(),
{
    if parts.len() == 0 {
        Seq::empty()
    } else {
        (match parts[0] {
            RuleInstModel::Literal(t) => t,
            _ => Seq::empty(),
        }) + lit_concat(parts.skip(1))
    }
}

/// What a generation from the table `id` denotes can have produced, as far
/// as it can be pinned without following interpolations: when the target is
/// a table of literal rules, the text is the concatenation of one of its
/// positively weighted rules.
pub open spec fn literal_table_output(
    tables: Seq<TableDefModel>,
    id: Seq<char>,
    g: Seq<char>,
) -> bool {
    (lookup(tables, id) matches Some(ct) && literal_table(ct)) ==> exists|i: int|
        0 <= i < lookup(tables, id).unwrap().rules.len() && lookup(tables, id).unwrap().weights[i]
            > 0 && g == lit_concat(#[trigger] lookup(tables, id).unwrap().rules[i].parts)
}

/// A candidate an interpolation collected: some generated text from the
/// target, with every transform filter applied.
pub open spec fn filtered_candidate(
    tables: Seq<TableDefModel>,
    id: Seq<char>,
    fs: Seq<FilterModel>,
    r: Seq<char>,
) -> bool {
    exists|g: Seq<char>|
        r == crate::model::apply_filters(fs, g) && #[trigger] literal_table_output(tables, id, g)
}

/// What one part can resolve to: a literal resolves to exactly its text, a
/// dice roll to the decimal rendering of a sum within its range, and an
/// interpolation to the join of its collected candidates.
pub open spec fn part_text_ok(tables: Seq<TableDefModel>, p: RuleInstModel, t: Seq<char>) -> bool {
    match p {
        RuleInstModel::Literal(x) => t == x,
        RuleInstModel::DiceRoll(c, s) => exists|x: int|
            c <= x <= (c as int) * (s as int) && t == crate::text::dec_rep(x),
        RuleInstModel::Interpolation(id, fs) => interp_output_ok(tables, id, fs, t),
        RuleInstModel::ExternalInterpolation(_, _, nsid, fs) => interp_output_ok(
            tables,
            nsid,
            fs,
            t,
        ),
    }
}

/// The concatenation of a sequence of texts.
pub open spec fn concat_texts(ts: Seq<Seq<char>>) -> Seq<char>
    decreases ts.len(),
{
    if ts.len() == 0 {
        Seq::empty()
    } else {
        ts[0] + concat_texts(ts.skip(1))
    }
}

/// Appending one more text appends it to the concatenation.
pub proof fn lemma_concat_texts_snoc(ts: Seq<Seq<char>>)
    requires
        ts.len() > 0,
    ensures
        concat_texts(ts) == concat_texts(ts.drop_last()) + ts.last(),
    decreases ts.len(),
{
    if ts.len() == 1 {
        assert(ts.drop_last() =~= Seq::<Seq<char>>::empty());
        assert(ts.skip(1) =~= Seq::<Seq<char>>::empty());
        assert(concat_texts(ts.drop_last()) + ts.last() =~= concat_texts(ts));
    } else {
        lemma_concat_texts_snoc(ts.skip(1));
        assert(ts.skip(1).drop_last() =~= ts.drop_last().skip(1));
        assert(ts.skip(1).last() == ts.last());
        assert(ts.drop_last()[0] == ts[0]);
        assert(concat_texts(ts) =~= concat_texts(ts.drop_last()) + ts.last());
    }
}

/// What a whole rule can resolve to: the concatenation of per-part texts,
/// each admissible for its part.
pub open spec fn rule_output_ok(tables: Seq<TableDefModel>, r: RuleModel, out: Seq<char>) -> bool {
    exists|ts: Seq<Seq<char>>|
        {
            &&& ts.len() == r.parts.len()
            &&& (forall|k: int|
                0 <= k < ts.len() ==> part_text_ok(tables, #[trigger] r.parts[k], ts[k]))
            &&& out == concat_texts(ts)
        }
}

/// What generation from a table can return: the resolution of one of its
/// rules whose weight is not zero.
pub open spec fn output_from(tables: Seq<TableDefModel>, t: TableDefModel, out: Seq<char>) -> bool {
    exists|i: int|
        0 <= i < t.rules.len() && t.weights[i] > 0 && rule_output_ok(
            tables,
            #[trigger] t.rules[i],
            out,
        )
}


/// A rule whose parts are all literals resolves to exactly the concatenation
/// of those literals, whatever the random draws were.
pub proof fn lemma_literal_rule_output(tables: Seq<TableDefModel>, r: RuleModel, out: Seq<char>)
    requires
        rule_output_ok(tables, r, out),
        forall|k: int| 0 <= k < r.parts.len() ==> (#[trigger] r.parts[k]) is Literal,
    ensures
        out == lit_concat(r.parts),
{
    let ts = choose|ts: Seq<Seq<char>>|
        {
            &&& ts.len() == r.parts.len()
            &&& (forall|k: int|
                0 <= k < ts.len() ==> part_text_ok(tables, #[trigger] r.parts[k], ts[k]))
            &&& out == concat_texts(ts)
        };
    lemma_literal_concat(tables, r.parts, ts);
}

/// Pointwise-admissible texts of literal parts concatenate to the literal
/// concatenation.
proof fn lemma_literal_concat(tables: Seq<TableDefModel>, parts: Seq<RuleInstModel>, ts: Seq<Seq<char>>)
    requires
        ts.len() == parts.len(),
        forall|k: int| 0 <= k < ts.len() ==> part_text_ok(tables, #[trigger] parts[k], ts[k]),
        forall|k: int| 0 <= k < parts.len() ==> (#[trigger] parts[k]) is Literal,
    ensures
        concat_texts(ts) == lit_concat(parts),
    decreases parts.len(),
{
    if parts.len() > 0 {
        assert(parts.skip(1).len() == ts.skip(1).len());
        assert forall|k: int| 0 <= k < ts.skip(1).len() implies part_text_ok(
            tables,
            #[trigger] parts.skip(1)[k],
            ts.skip(1)[k],
        ) by {
            assert(parts.skip(1)[k] == parts[k + 1]);
            assert(ts.skip(1)[k] == ts[k + 1]);
        }
        assert forall|k: int| 0 <= k < parts.skip(1).len() implies (#[trigger] parts.skip(
            1,
        )[k]) is Literal by {
            assert(parts.skip(1)[k] == parts[k + 1]);
        }
        lemma_literal_concat(tables, parts.skip(1), ts.skip(1));
        assert(part_text_ok(tables, parts[0], ts[0]));
    }
}

/// Pairwise distinct texts.
pub open spec fn distinct_seqs(rs: Seq<Seq<char>>) -> bool {
    forall|a: int, b: int| 0 <= a < b < rs.len() ==> rs[a] != rs[b]
}

/// What an interpolation of the table `id` with the given filters can
/// resolve to: exactly as many pairwise-distinct collected candidates as its
/// uniqueness count asks for (one without a `Unique` filter), each a
/// filtered generation from the target, joined as its `Join` filter asks.
pub open spec fn interp_output_ok(
    tables: Seq<TableDefModel>,
    id: Seq<char>,
    fs: Seq<FilterModel>,
    out: Seq<char>,
) -> bool {
    exists|rs: Seq<Seq<char>>|
        {
            &&& rs.len() == crate::model::unique_count(fs)
            &&& distinct_seqs(rs)
            &&& (forall|k: int|
                0 <= k < rs.len() ==> filtered_candidate(tables, id, fs, #[trigger] rs[k]))
            &&& out == crate::model::join_results(
                rs,
                crate::model::join_of(fs).0,
                crate::model::join_of(fs).1,
            )
        }
}

/// Applying a filter pipeline is applying its prefix, then its last filter.
pub proof fn lemma_apply_filters_snoc(fs: Seq<FilterModel>, t: Seq<char>)
    requires
        fs.len() > 0,
    ensures
        crate::model::apply_filters(fs, t) == crate::model::apply_one(
            fs.last(),
            crate::model::apply_filters(fs.drop_last(), t),
        ),
    decreases fs.len(),
{
    reveal_with_fuel(crate::model::apply_filters, 3);
    if fs.len() == 1 {
        assert(fs.drop_last() =~= Seq::<FilterModel>::empty());
        assert(fs.skip(1) =~= Seq::<FilterModel>::empty());
        assert(fs.last() == fs[0]);
        assert(crate::model::apply_filters(fs, t) == crate::model::apply_one(fs[0], t));
        assert(crate::model::apply_filters(fs.drop_last(), t) == t);
    } else {
        let a = crate::model::apply_one(fs[0], t);
        lemma_apply_filters_snoc(fs.skip(1), a);
        assert(fs.skip(1).drop_last() =~= fs.drop_last().skip(1));
        assert(fs.skip(1).last() == fs.last());
        assert(fs.drop_last()[0] == fs[0]);
        assert(fs.drop_last().len() > 0);
        assert(crate::model::apply_filters(fs, t) == crate::model::apply_filters(fs.skip(1), a));
        assert(crate::model::apply_filters(fs.drop_last(), t) == crate::model::apply_filters(
            fs.drop_last().skip(1),
            a,
        ));
    }
}

/// Whether one of the held strings reads the same as `s`.
fn contains_string(v: &Vec<String>, s: &String) -> (r: bool)
    ensures
        r == exists|i: int| 0 <= i < v@.len() && (#[trigger] v@[i])@ == s@,
{
    let mut k: usize = 0;
    while k < v.len()
        invariant
            k <= v.len(),
            forall|i: int| 0 <= i < k ==> (#[trigger] v@[i])@ != s@,
        decreases v.len() - k,
    {
        if v[k].eq(s) {
            return true;
        }
        k += 1;
    }
    false
}

/// Joining one more text inserts the separator before it, once the list has
/// a first element.
pub proof fn lemma_join_plain_snoc(rs: Seq<Seq<char>>, sep: Seq<char>)
    requires
        rs.len() >= 2,
    ensures
        crate::model::join_plain(rs, sep) == crate::model::join_plain(rs.drop_last(), sep) + sep
            + rs.last(),
    decreases rs.len(),
{
    if rs.len() == 2 {
        assert(rs.skip(1) =~= seq![rs[1]]);
        assert(rs.drop_last() =~= seq![rs[0]]);
        assert(rs.last() == rs[1]);
        assert(crate::model::join_plain(rs.skip(1), sep) == rs[1]);
        assert(crate::model::join_plain(rs.drop_last(), sep) == rs[0]);
        assert(crate::model::join_plain(rs, sep) == rs[0] + sep + rs[1]);
    } else {
        lemma_join_plain_snoc(rs.skip(1), sep);
        assert(rs.skip(1).drop_last() =~= rs.drop_last().skip(1));
        assert(rs.skip(1).last() == rs.last());
        assert(rs.drop_last()[0] == rs[0]);
        assert(rs.drop_last().len() >= 2);
    }
}

/// Joins the held strings with the separator between each adjacent pair.
fn join_strings(v: &Vec<String>, sep: &str) -> (r: String)
    ensures
        r@ == crate::model::join_plain(v@.map_values(|x: String| x@), sep@),
{
    let ghost rs = v@.map_values(|x: String| x@);
    let mut out = String::new();
    let mut k: usize = 0;
    while k < v.len()
        invariant
            rs == v@.map_values(|x: String| x@),
            k <= v.len(),
            k == 0 ==> out@ == Seq::<char>::empty(),
            k > 0 ==> out@ == crate::model::join_plain(rs.take(k as int), sep@),
        decreases v.len() - k,
    {
        proof {
            assert(rs[k as int] == v@[k as int]@);
        }
        if k > 0 {
            out.append(sep);
        }
        out.append(v[k].as_str());
        proof {
            if k == 0 {
                assert(rs.take(1) =~= seq![rs[0]]);
            } else {
                lemma_join_plain_snoc(rs.take(k + 1), sep@);
                assert(rs.take(k + 1).drop_last() =~= rs.take(k as int));
                assert(rs.take(k + 1).last() == rs[k as int]);
            }
        }
        k += 1;
    }
    proof {
        if v@.len() == 0 {
            assert(rs =~= Seq::<Seq<char>>::empty());
        } else {
            assert(rs.take(rs.len() as int) =~= rs);
        }
    }
    out
}

impl TableCollection {
    /// Generates one result from the table `id` denotes, within a recursion
    /// budget. An unknown identifier is an invalid call on the internal path
    /// and a missing dependency on the external path; every reported missing
    /// dependency is an identifier the collection truly lacks.
    fn gen_depth(&self, id: &str, is_external: bool, depth: u64) -> (r: Result<String, TableError>)
        requires
            self.wf(),
        ensures
            lookup(self@.tables, id@) is None && !is_external ==> (r is Err
                && (r.unwrap_err() matches TableError::CallError(m) && m@ == "No table found with id "@
                + id@)),
            lookup(self@.tables, id@) is None && is_external ==> (r is Err
                && (r.unwrap_err() matches TableError::MissingDependencyError(m, mid) && m@
                == "Missing dependency with id "@ + id@ && mid@ == id@)),
            r is Err ==> (r.unwrap_err() matches TableError::MissingDependencyError(m, mid)
                ==> lookup(self@.tables, mid@) is None),
            lookup(self@.tables, id@) matches Some(t) ==> (r is Ok ==> output_from(
                self@.tables,
                t,
                r.unwrap()@,
            )),
            lookup(self@.tables, id@) matches Some(t) ==> (all_simple(t) ==> r is Ok),
            r is Err ==> (r.unwrap_err() is CallError || r.unwrap_err()
                is MissingDependencyError),
            lookup(self@.tables, id@) matches Some(t) ==> ((depth > 0 && easy_table(
                self@.tables,
                t,
            )) ==> r is Ok),
            lookup(self@.tables, id@) matches Some(t) ==> ((depth > 0 && all_rules_starved(
                self@.tables,
                t,
            )) ==> (r is Err && (r.unwrap_err() matches TableError::CallError(m)
                && starved_msg_of(t, m@)))),
        decreases depth, 3int,
    {
        match self.lookup_idx(id) {
            None => {
                if is_external {
                    let m = String::from_str("Missing dependency with id ").concat(id);
                    Err(TableError::MissingDependencyError(m, id.to_owned()))
                } else {
                    let m = String::from_str("No table found with id ").concat(id);
                    Err(TableError::CallError(m))
                }
            },
            Some(idx) => {
                let table = &self.tables[idx];
                proof {
                    assert(table.wf());
                    assert(table@ == lookup(self@.tables, id@).unwrap());
                }
                table.gen_depth(self, depth)
            },
        }
    }

    /// Generates one result from the table `id` denotes.
    pub fn _gen(&self, id: &str, is_external: bool) -> (r: Result<String, TableError>)
        requires
            self.wf(),
        ensures
            lookup(self@.tables, id@) is None && !is_external ==> (r is Err
                && (r.unwrap_err() matches TableError::CallError(m) && m@ == "No table found with id "@
                + id@)),
            lookup(self@.tables, id@) is None && is_external ==> (r is Err
                && (r.unwrap_err() matches TableError::MissingDependencyError(m, mid) && m@
                == "Missing dependency with id "@ + id@ && mid@ == id@)),
            r is Err ==> (r.unwrap_err() matches TableError::MissingDependencyError(m, mid)
                ==> lookup(self@.tables, mid@) is None),
            lookup(self@.tables, id@) matches Some(t) ==> (r is Ok ==> output_from(
                self@.tables,
                t,
                r.unwrap()@,
            )),
            lookup(self@.tables, id@) matches Some(t) ==> (all_simple(t) ==> r is Ok),
            r is Err ==> (r.unwrap_err() is CallError || r.unwrap_err()
                is MissingDependencyError),
            lookup(self@.tables, id@) matches Some(t) ==> (easy_table(self@.tables, t) ==> r
                is Ok),
            lookup(self@.tables, id@) matches Some(t) ==> (all_rules_starved(self@.tables, t)
                ==> (r is Err && (r.unwrap_err() matches TableError::CallError(m)
                && starved_msg_of(t, m@)))),
    {
        self.gen_depth(id, is_external, RECURSION_LIMIT)
    }

    /// Generates one result from the table `id` denotes. The external flag
    /// only picks the error kind an unknown identifier is reported as.
    pub fn gen(&self, id: &str, is_external: bool) -> (r: Result<String, TableError>)
        requires
            self.wf(),
        ensures
            lookup(self@.tables, id@) is None && !is_external ==> r is Err
                && (r.unwrap_err() matches TableError::CallError(m) && m@ == "No table found with id "@
                + id@),
            lookup(self@.tables, id@) is None && is_external ==> (r is Err
                && (r.unwrap_err() matches TableError::MissingDependencyError(m, mid) && mid@
                == id@)),
            lookup(self@.tables, id@) matches Some(t) ==> (r is Ok ==> output_from(
                self@.tables,
                t,
                r.unwrap()@,
            )),
            lookup(self@.tables, id@) matches Some(t) ==> (all_simple(t) ==> r is Ok),
            r is Err ==> (r.unwrap_err() is CallError || r.unwrap_err()
                is MissingDependencyError),
            lookup(self@.tables, id@) matches Some(t) ==> (easy_table(self@.tables, t) ==> r
                is Ok),
            lookup(self@.tables, id@) matches Some(t) ==> (all_rules_starved(self@.tables, t)
                ==> (r is Err && (r.unwrap_err() matches TableError::CallError(m)
                && starved_msg_of(t, m@)))),
    {
        self._gen(id, is_external)
    }
}

impl TableDefinition {
    /// Samples one rule proportionally to the weights (a rule of weight zero
    /// is never selected) and resolves its parts in order.
    fn gen_depth(&self, tables: &TableCollection, depth: u64) -> (r: Result<String, TableError>)
        requires
            self.wf(),
            tables.wf(),
        ensures
            r is Ok ==> output_from(tables@.tables, self@, r.unwrap()@),
            all_simple(self@) ==> r is Ok,
            r is Err ==> (r.unwrap_err() matches TableError::MissingDependencyError(m, mid)
                ==> lookup(tables@.tables, mid@) is None),
            r is Err ==> (r.unwrap_err() is CallError || r.unwrap_err()
                is MissingDependencyError),
            (depth > 0 && easy_table(tables@.tables, self@)) ==> r is Ok,
            (depth > 0 && all_rules_starved(tables@.tables, self@)) ==> (r is Err && (
            r.unwrap_err() matches TableError::CallError(m) && starved_msg_of(self@, m@))),
        decreases depth, 2int,
    {
        let i = self.distribution.sample();
        proof {
            assert(self@.weights[i as int] == weights_of(self@.rules)[i as int]);
            assert(self@.rules[i as int] == self.rules@[i as int]@);
            assert(rule_wf(self@.rules[i as int]));
        }
        let rule = &self.rules[i];
        let r = rule.resolve_depth(tables, depth);
        proof {
            if depth > 0 && all_rules_starved(tables@.tables, self@) {
                let pi = choose|pi: int|
                    blocked_starved(tables@.tables, self@.rules[i as int], pi);
                assert(blocked_starved(tables@.tables, rule@, pi));
                assert(r is Err);
            }
        }
        r
    }

    /// Generates one result from this table.
    pub fn gen(&self, tables: &TableCollection) -> (r: Result<String, TableError>)
        requires
            self.wf(),
            tables.wf(),
        ensures
            r is Ok ==> output_from(tables@.tables, self@, r.unwrap()@),
            all_simple(self@) ==> r is Ok,
            r is Err ==> (r.unwrap_err() is CallError || r.unwrap_err()
                is MissingDependencyError),
            easy_table(tables@.tables, self@) ==> r is Ok,
            all_rules_starved(tables@.tables, self@) ==> (r is Err && (r.unwrap_err()
                matches TableError::CallError(m) && starved_msg_of(self@, m@))),
    {
        self.gen_depth(tables, RECURSION_LIMIT)
    }
}

impl Rule {
    /// Resolves this rule: each part in order, concatenated left-to-right.
    /// The first failing part's error is returned: deterministically a
    /// missing dependency where a simple prefix ends at an unfiltered
    /// external reference to an absent table, an invalid call where such a
    /// reference is internal, and an exhausted retry budget where more
    /// distinct results are demanded than the target's literal rules can
    /// produce after filtering.
    fn resolve_depth(&self, tables: &TableCollection, depth: u64) -> (r: Result<
        String,
        TableError,
    >)
        requires
            rule_wf(self@),
            tables.wf(),
        ensures
            r is Ok ==> rule_output_ok(tables@.tables, self@, r.unwrap()@),
            simple_rule(self@) ==> r is Ok,
            r is Err ==> (r.unwrap_err() matches TableError::MissingDependencyError(m, mid)
                ==> lookup(tables@.tables, mid@) is None),
            r is Err ==> (r.unwrap_err() is CallError || r.unwrap_err()
                is MissingDependencyError),
            (depth > 0 && (forall|k: int|
                0 <= k < self@.parts.len() ==> easy_part(
                    tables@.tables,
                    #[trigger] self@.parts[k],
                ))) ==> r is Ok,
            depth > 0 ==> (forall|pi: int|
                blocked_external(tables@.tables, self@, pi) ==> (r is Err && (r.unwrap_err()
                    matches TableError::MissingDependencyError(m, mid) && mid@ == interp_target(
                    self@.parts[pi],
                ).unwrap() && m@ == "Missing dependency with id "@ + interp_target(
                    self@.parts[pi],
                ).unwrap()))),
            depth > 0 ==> (forall|pi: int|
                blocked_internal(tables@.tables, self@, pi) ==> (r is Err && (r.unwrap_err()
                    matches TableError::CallError(m) && m@ == "No table found with id "@
                    + interp_target(self@.parts[pi]).unwrap()))),
            depth > 0 ==> (forall|pi: int|
                blocked_starved(tables@.tables, self@, pi) ==> (r is Err && (r.unwrap_err()
                    matches TableError::CallError(m) && m@ == unique_fail_msg(self@.raw)))),
            (depth > 0 && benign_rule(tables@.tables, self@)) ==> (r is Ok || r.unwrap_err()
                is MissingDependencyError),
        decreases depth, 1int,
    {
        let mut out = String::new();
        let ghost mut ts: Seq<Seq<char>> = Seq::empty();
        let mut k: usize = 0;
        while k < self.parts.len()
            invariant
                rule_wf(self@),
                tables.wf(),
                k <= self.parts.len(),
                ts.len() == k,
                forall|j: int|
                    0 <= j < k ==> part_text_ok(tables@.tables, #[trigger] self@.parts[j], ts[j]),
                out@ == concat_texts(ts),
                depth > 0 ==> (forall|pi: int|
                    #![trigger blocked_external(tables@.tables, self@, pi)]
                    #![trigger blocked_internal(tables@.tables, self@, pi)]
                    #![trigger blocked_starved(tables@.tables, self@, pi)]
                    (blocked_external(tables@.tables, self@, pi) || blocked_internal(
                        tables@.tables,
                        self@,
                        pi,
                    ) || blocked_starved(tables@.tables, self@, pi)) ==> k as int <= pi),
            decreases self.parts.len() - k, depth, 0int,
        {
            proof {
                assert(self@.parts[k as int] == self.parts@[k as int]@);
                assert(crate::model::inst_wf(self@.parts[k as int]));
            }
            let piece: String = match &self.parts[k] {
                RuleInst::DiceRoll(c, d) => {
                    let x = crate::sampler::roll_dice(*c, *d);
                    crate::text::u64_to_string(x)
                },
                RuleInst::Literal(t) => t.clone(),
                RuleInst::Interpolation(id2, fs) => {
                    proof {
                        let fsm = fs@.map_values(|f: FilterOp| f@);
                        assert(crate::model::inst_wf(self@.parts[k as int]));
                        assert(self@.parts[k as int] == RuleInstModel::Interpolation(id2@, fsm));
                        assert(crate::model::inst_wf(RuleInstModel::Interpolation(id2@, fsm)));
                        assert(crate::model::filters_of(self@.parts[k as int]) == fsm);
                        assert forall|i: int| 0 <= i < fs@.len() implies crate::model::filter_wf(
                            #[trigger] (fs@[i]@),
                        ) by {
                            assert(fsm[i] == fs@[i]@);
                            assert(crate::model::filter_wf(fsm[i]));
                        }
                    }
                    match self.resolve_interpolation_depth(id2.as_str(), fs, false, tables, depth) {
                        Ok(s) => s,
                        Err(e) => {
                            return Err(e);
                        },
                    }
                },
                RuleInst::ExternalInterpolation(ns2, id2, nsid, fs) => {
                    proof {
                        let fsm = fs@.map_values(|f: FilterOp| f@);
                        assert(crate::model::inst_wf(self@.parts[k as int]));
                        assert(self@.parts[k as int] == RuleInstModel::ExternalInterpolation(
                            ns2@,
                            id2@,
                            nsid@,
                            fsm,
                        ));
                        assert(crate::model::filters_of(self@.parts[k as int]) == fsm);
                        assert forall|i: int| 0 <= i < fs@.len() implies crate::model::filter_wf(
                            #[trigger] (fs@[i]@),
                        ) by {
                            assert(fsm[i] == fs@[i]@);
                            assert(crate::model::filter_wf(fsm[i]));
                        }
                    }
                    match self.resolve_interpolation_depth(nsid.as_str(), fs, true, tables, depth) {
                        Ok(s) => s,
                        Err(e) => {
                            return Err(e);
                        },
                    }
                },
            };
            proof {
                assert(part_text_ok(tables@.tables, self@.parts[k as int], piece@));
                let prev_ts = ts;
                ts = ts.push(piece@);
                lemma_concat_texts_snoc(ts);
                assert(ts.drop_last() =~= prev_ts);
                assert(ts.last() == piece@);
            }
            out.append(piece.as_str());
            proof {
                if depth > 0 {
                    assert forall|pi: int|
                        #![trigger blocked_external(tables@.tables, self@, pi)]
                        #![trigger blocked_internal(tables@.tables, self@, pi)]
                        #![trigger blocked_starved(tables@.tables, self@, pi)]
                        (blocked_external(tables@.tables, self@, pi) || blocked_internal(
                            tables@.tables,
                            self@,
                            pi,
                        ) || blocked_starved(tables@.tables, self@, pi)) implies k as int + 1
                        <= pi by {
                        if pi == k as int {
                            assert(false);
                        }
                    }
                }
            }
            k += 1;
        }
        proof {
            assert(ts.len() == self@.parts.len());
            if depth > 0 {
                assert forall|pi: int|
                    #![trigger blocked_external(tables@.tables, self@, pi)]
                    #![trigger blocked_internal(tables@.tables, self@, pi)]
                    #![trigger blocked_starved(tables@.tables, self@, pi)]
                    !(blocked_external(tables@.tables, self@, pi) || blocked_internal(
                        tables@.tables,
                        self@,
                        pi,
                    ) || blocked_starved(tables@.tables, self@, pi)) by {
                    if blocked_external(tables@.tables, self@, pi) || blocked_internal(
                        tables@.tables,
                        self@,
                        pi,
                    ) || blocked_starved(tables@.tables, self@, pi) {
                        assert(pi < self@.parts.len());
                        assert(k as int <= pi);
                    }
                }
            }
        }
        Ok(out)
    }

    /// Resolves this rule against a collection.
    pub fn resolve(&self, tables: &TableCollection) -> (r: Result<String, TableError>)
        requires
            rule_wf(self@),
            tables.wf(),
        ensures
            r is Ok ==> rule_output_ok(tables@.tables, self@, r.unwrap()@),
            simple_rule(self@) ==> r is Ok,
            r is Err ==> (r.unwrap_err() matches TableError::MissingDependencyError(m, mid)
                ==> lookup(tables@.tables, mid@) is None),
            r is Err ==> (r.unwrap_err() is CallError || r.unwrap_err()
                is MissingDependencyError),
            (forall|k: int|
                0 <= k < self@.parts.len() ==> easy_part(
                    tables@.tables,
                    #[trigger] self@.parts[k],
                )) ==> r is Ok,
            forall|pi: int|
                blocked_external(tables@.tables, self@, pi) ==> (r is Err && (r.unwrap_err()
                    matches TableError::MissingDependencyError(m, mid) && mid@ == interp_target(
                    self@.parts[pi],
                ).unwrap() && m@ == "Missing dependency with id "@ + interp_target(
                    self@.parts[pi],
                ).unwrap())),
            forall|pi: int|
                blocked_internal(tables@.tables, self@, pi) ==> (r is Err && (r.unwrap_err()
                    matches TableError::CallError(m) && m@ == "No table found with id "@
                    + interp_target(self@.parts[pi]).unwrap())),
            forall|pi: int|
                blocked_starved(tables@.tables, self@, pi) ==> (r is Err && (r.unwrap_err()
                    matches TableError::CallError(m) && m@ == unique_fail_msg(self@.raw))),
            benign_rule(tables@.tables, self@) ==> (r is Ok || r.unwrap_err()
                is MissingDependencyError),
    {
        self.resolve_depth(tables, RECURSION_LIMIT)
    }

    /// Resolves an interpolation: generates from the target table, applies
    /// every transform filter to each candidate, collects as many distinct
    /// results as a `Unique` filter asks for (retrying within a bounded
    /// budget), and joins the results as a `Join` filter asks. An absent
    /// target is an invalid call on the internal path and a missing
    /// dependency on the external path; a target that cannot produce enough
    /// distinct results exhausts the budget with an error naming the rule's
    /// source text.
    fn resolve_interpolation_depth(
        &self,
        id: &str,
        filters: &Vec<FilterOp>,
        is_external: bool,
        tables: &TableCollection,
        depth: u64,
    ) -> (r: Result<String, TableError>)
        requires
            tables.wf(),
            forall|i: int|
                0 <= i < filters@.len() ==> crate::model::filter_wf(#[trigger] (filters@[i]@)),
        ensures
            r is Ok ==> interp_output_ok(
                tables@.tables,
                id@,
                filters@.map_values(|f: FilterOp| f@),
                r.unwrap()@,
            ),
            r is Err ==> (r.unwrap_err() matches TableError::MissingDependencyError(m, mid)
                ==> lookup(tables@.tables, mid@) is None),
            r is Err ==> (r.unwrap_err() is CallError || r.unwrap_err()
                is MissingDependencyError),
            depth == 0 ==> r is Err && r.unwrap_err() is CallError,
            (depth > 0 && crate::model::unique_count(filters@.map_values(|f: FilterOp| f@)) == 1
                && lookup(tables@.tables, id@) is None && is_external) ==> (r is Err && (
            r.unwrap_err() matches TableError::MissingDependencyError(m, mid) && m@
                == "Missing dependency with id "@ + id@ && mid@ == id@)),
            (depth > 0 && crate::model::unique_count(filters@.map_values(|f: FilterOp| f@)) == 1
                && lookup(tables@.tables, id@) is None && !is_external) ==> (r is Err && (
            r.unwrap_err() matches TableError::CallError(m) && m@ == "No table found with id "@
                + id@)),
            (depth > 0 && crate::model::unique_count(filters@.map_values(|f: FilterOp| f@)) == 1
                && (lookup(tables@.tables, id@) matches Some(t) && all_simple(t))) ==> r is Ok,
            (depth > 0 && starved_target(
                tables@.tables,
                id@,
                filters@.map_values(|f: FilterOp| f@),
            )) ==> (r is Err && (r.unwrap_err() matches TableError::CallError(m) && m@
                == unique_fail_msg(self.raw@))),
        decreases depth, 0int,
    {
        let ghost fs_m = filters@.map_values(|f: FilterOp| f@);
        // The number of distinct results to collect: the first `Unique`
        // filter's count, or one.
        let mut count: u64 = 1;
        let mut k: usize = 0;
        let mut found: bool = false;
        proof {
            assert(fs_m.skip(0) =~= fs_m);
        }
        while k < filters.len() && !found
            invariant
                fs_m == filters@.map_values(|f: FilterOp| f@),
                k <= filters@.len(),
                !found ==> crate::model::unique_count(fs_m) == crate::model::unique_count(
                    fs_m.skip(k as int),
                ),
                !found ==> count == 1,
                found ==> count == crate::model::unique_count(fs_m),
                forall|i: int|
                    0 <= i < filters@.len() ==> crate::model::filter_wf(#[trigger] (filters@[i]@)),
                found ==> 2 <= count <= crate::model::PART_BOUND,
            decreases filters.len() - k,
    {
            proof {
                assert(fs_m.skip(k as int)[0] == fs_m[k as int]);
                assert(fs_m[k as int] == filters@[k as int]@);
            }
            match &filters[k] {
                FilterOp::Unique(n) => {
                    count = *n;
                    found = true;
                    proof {
                        assert(crate::model::unique_count(fs_m.skip(k as int)) == count);
                        assert(crate::model::filter_wf(fs_m[k as int]));
                    }
                },
                _ => {
                    proof {
                        assert(fs_m.skip(k as int).skip(1) =~= fs_m.skip(k as int + 1));
                    }
                },
            }
            k += 1;
        }
        proof {
            if !found {
                assert(fs_m.skip(fs_m.len() as int) =~= Seq::<FilterModel>::empty());
            }
            assert(count == crate::model::unique_count(fs_m));
        }
        // The separator and conjunction: the first `Join` filter's, or the
        // empty separator and no conjunction.
        let mut separator: String = String::new();
        let mut conjunction: Option<String> = None;
        let mut k2: usize = 0;
        let mut found_join: bool = false;
        proof {
            assert(fs_m.skip(0) =~= fs_m);
        }
        while k2 < filters.len() && !found_join
            invariant
                fs_m == filters@.map_values(|f: FilterOp| f@),
                k2 <= filters@.len(),
                !found_join ==> crate::model::join_of(fs_m) == crate::model::join_of(
                    fs_m.skip(k2 as int),
                ),
                !found_join ==> separator@ == Seq::<char>::empty() && conjunction is None,
                found_join ==> separator@ == crate::model::join_of(fs_m).0,
                found_join ==> (match conjunction {
                    Some(c) => crate::model::join_of(fs_m).1 == Some(c@),
                    None => crate::model::join_of(fs_m).1 is None,
                }),
            decreases filters.len() - k2,
        {
            proof {
                assert(fs_m.skip(k2 as int)[0] == fs_m[k2 as int]);
                assert(fs_m[k2 as int] == filters@[k2 as int]@);
            }
            match &filters[k2] {
                FilterOp::Join(sep, conj) => {
                    separator = sep.clone();
                    conjunction = match conj {
                        Some(c) => Some(c.clone()),
                        None => None,
                    };
                    found_join = true;
                    proof {
                        assert(crate::model::join_of(fs_m.skip(k2 as int)) == (sep@, match conj {
                            Some(c) => Some(c@),
                            None => None,
                        }));
                    }
                },
                _ => {
                    proof {
                        assert(fs_m.skip(k2 as int).skip(1) =~= fs_m.skip(k2 as int + 1));
                    }
                },
            }
            k2 += 1;
        }
        proof {
            if !found_join {
                assert(fs_m.skip(fs_m.len() as int) =~= Seq::<FilterModel>::empty());
            }
        }
        let ghost sep_m = crate::model::join_of(fs_m).0;
        let ghost conj_m = crate::model::join_of(fs_m).1;
        proof {
            crate::model::lemma_unique_count_pos(fs_m);
            assert forall|i: int| 0 <= i < tables@.tables.len() implies valid_weights(
                (#[trigger] tables@.tables[i]).weights,
            ) && tables@.tables[i].weights == weights_of(tables@.tables[i].rules) by {
                assert(tables@.tables[i] == tables.tables@[i]@);
                assert(tables.tables@[i].wf());
            }
            lemma_lookup_props(tables@.tables, id@);
        }
        let ghost starved = depth > 0 && starved_target(tables@.tables, id@, fs_m);
        let ghost outputs = filtered_outputs(lookup(tables@.tables, id@).unwrap(), fs_m);
        // Collect `count` distinct results, with a bounded retry budget.
        let mut results: Vec<String> = Vec::new();
        let mut failed_attempts: u64 = 0;
        while (results.len() as u64) < count
            invariant
                tables.wf(),
                fs_m == filters@.map_values(|f: FilterOp| f@),
                forall|i: int|
                    0 <= i < filters@.len() ==> crate::model::filter_wf(#[trigger] (filters@[i]@)),
                count == crate::model::unique_count(fs_m),
                sep_m == crate::model::join_of(fs_m).0,
                conj_m == crate::model::join_of(fs_m).1,
                separator@ == sep_m,
                (match conjunction {
                    Some(c) => conj_m == Some(c@),
                    None => conj_m is None,
                }),
                results@.len() <= count,
                count >= 1,
                count == crate::model::unique_count(fs_m),
                distinct_seqs(results@.map_values(|x: String| x@)),
                forall|k: int|
                    0 <= k < results@.len() ==> filtered_candidate(
                        tables@.tables,
                        id@,
                        fs_m,
                        (#[trigger] results@[k])@,
                    ),
                depth == 0 ==> results@.len() == 0,
                (depth > 0 && count == 1 && lookup(tables@.tables, id@) is None)
                    ==> results@.len() == 0,
                starved == (depth > 0 && starved_target(tables@.tables, id@, fs_m)),
                outputs == filtered_outputs(lookup(tables@.tables, id@).unwrap(), fs_m),
                starved ==> results@.map_values(|x: String| x@).to_set().subset_of(outputs),
                lookup(tables@.tables, id@) matches Some(m) ==> m.rules.len() > 0,
                failed_attempts <= UNIQUE_GEN_LIMIT,
            decreases (count - results@.len()) + (UNIQUE_GEN_LIMIT - failed_attempts),
        {
            if depth == 0 {
                let m = String::from_str("Recursion limit reached for rule ").concat(
                    self.raw.as_str(),
                );
                return Err(TableError::CallError(m));
            }
            let mut result = match tables.gen_depth(id, is_external, depth - 1) {
                Ok(s) => s,
                Err(e) => {
                    proof {
                        if starved {
                            let ct = lookup(tables@.tables, id@).unwrap();
                            assert(all_simple(ct)) by {
                                assert forall|i: int| 0 <= i < ct.rules.len() implies simple_rule(
                                    #[trigger] ct.rules[i],
                                ) by {
                                    assert forall|k: int|
                                        0 <= k < ct.rules[i].parts.len() implies simple_part(
                                        #[trigger] ct.rules[i].parts[k],
                                    ) by {
                                        assert(ct.rules[i].parts[k] is Literal);
                                    }
                                }
                            }
                        }
                    }
                    return Err(e);
                },
            };
            // Apply every transform filter to the candidate before the
            // uniqueness check.
            let ghost t0 = result@;
            let mut fk: usize = 0;
            while fk < filters.len()
                invariant
                    fs_m == filters@.map_values(|f: FilterOp| f@),
                    fk <= filters@.len(),
                    result@ == crate::model::apply_filters(fs_m.take(fk as int), t0),
                decreases filters.len() - fk,
            {
                proof {
                    assert(fs_m[fk as int] == filters@[fk as int]@);
                }
                filters[fk].apply(&mut result);
                proof {
                    lemma_apply_filters_snoc(fs_m.take(fk as int + 1), t0);
                    assert(fs_m.take(fk as int + 1).drop_last() =~= fs_m.take(fk as int));
                    assert(fs_m.take(fk as int + 1).last() == fs_m[fk as int]);
                }
                fk += 1;
            }
            proof {
                assert(fs_m.take(fs_m.len() as int) =~= fs_m);
                assert(result@ == crate::model::apply_filters(fs_m, t0));
                assert(literal_table_output(tables@.tables, id@, t0)) by {
                    let lk = lookup(tables@.tables, id@);
                    if lk is Some && literal_table(lk.unwrap()) {
                        let ct = lk.unwrap();
                        let i = choose|i: int|
                            0 <= i < ct.rules.len() && ct.weights[i] > 0 && rule_output_ok(
                                tables@.tables,
                                #[trigger] ct.rules[i],
                                t0,
                            );
                        lemma_literal_rule_output(tables@.tables, ct.rules[i], t0);
                    }
                }
                assert(filtered_candidate(tables@.tables, id@, fs_m, result@));
                if starved {
                    let ct = lookup(tables@.tables, id@).unwrap();
                    let i = choose|i: int|
                        0 <= i < ct.rules.len() && ct.weights[i] > 0 && rule_output_ok(
                            tables@.tables,
                            #[trigger] ct.rules[i],
                            t0,
                        );
                    lemma_literal_rule_output(tables@.tables, ct.rules[i], t0);
                    let fo = |r2: RuleModel| crate::model::apply_filters(fs_m, lit_concat(
                        r2.parts,
                    ));
                    assert(ct.rules.map_values(fo)[i] == result@);
                    assert(ct.rules.map_values(fo).contains(result@));
                    assert(outputs.contains(result@));
                }
            }
            let ghost old_results = results@;
            if !contains_string(&results, &result) {
                results.push(result);
                proof {
                    if starved {
                        let old_rs = old_results.map_values(|x: String| x@);
                        assert(results@.map_values(|x: String| x@) =~= old_rs.push(result@));
                        assert(results@.map_values(|x: String| x@).to_set() =~= old_rs.to_set()
                            .insert(result@));
                        assert(results@.map_values(|x: String| x@).to_set().subset_of(outputs));
                    }
                    let rs = results@.map_values(|x: String| x@);
                    assert forall|a: int, b: int| 0 <= a < b < rs.len() implies rs[a] != rs[b] by {
                        if b < rs.len() - 1 {
                            assert(old_results.map_values(|x: String| x@)[a] != old_results
                                .map_values(|x: String| x@)[b]);
                        } else {
                            assert(rs[a] == old_results[a]@);
                        }
                    }
                }
            } else {
                failed_attempts += 1;
                if failed_attempts > UNIQUE_GEN_LIMIT {
                    let m = String::from_str("Failed to generate unique result for rule ").concat(
                        self.raw.as_str(),
                    ).concat(" after 20 attempts");
                    return Err(TableError::CallError(m));
                }
            }
        }
        proof {
            assert(results@.len() == count);
            if starved {
                let rs = results@.map_values(|x: String| x@);
                assert(rs.no_duplicates()) by {
                    assert forall|a: int, b: int|
                        0 <= a < rs.len() && 0 <= b < rs.len() && a != b implies rs[a]
                        != rs[b] by {
                        if a < b {
                            assert(rs[a] != rs[b]);
                        } else {
                            assert(rs[b] != rs[a]);
                        }
                    }
                }
                rs.unique_seq_to_set();
                vstd::set_lib::lemma_len_subset(rs.to_set(), outputs);
                assert(false);
            }
        }
        // Join the collected results.
        if conjunction.is_some() && results.len() > 1 {
            let ghost rs_full = results@.map_values(|x: String| x@);
            let conj = match conjunction {
                Some(c) => c,
                None => {
                    proof {
                        assert(false);
                    }
                    String::new()
                },
            };
            let last = match results.pop() {
                Some(l) => l,
                None => {
                    proof {
                        assert(false);
                    }
                    String::new()
                },
            };
            let joined = join_strings(&results, separator.as_str());
            let out = joined.concat(conj.as_str()).concat(last.as_str());
            proof {
                assert(results@.map_values(|x: String| x@) =~= rs_full.take(rs_full.len() - 1));
                assert(rs_full.last() == last@);
                assert(out@ == crate::model::join_results(rs_full, sep_m, conj_m));
                assert(interp_output_ok(tables@.tables, id@, fs_m, out@));
            }
            Ok(out)
        } else {
            let out = join_strings(&results, separator.as_str());
            proof {
                let rs_full = results@.map_values(|x: String| x@);
                assert(out@ == crate::model::join_results(rs_full, sep_m, conj_m));
                assert(interp_output_ok(tables@.tables, id@, fs_m, out@));
            }
            Ok(out)
        }
    }
}


// ---------------------------------------------------------------------------
// Error rendering
// ---------------------------------------------------------------------------
impl TableError {
    /// The error as text, a kind prefix followed by the message.
    pub fn message(&self) -> (r: String)
        ensures
            self matches TableError::ParseError(m, _) ==> r@ == "Failed to parse: "@ + m@,
            self matches TableError::InvalidDefinition(m) ==> r@ == "Invalid definition: "@ + m@,
            self matches TableError::CallError(m) ==> r@ == "Invalid call: "@ + m@,
            self matches TableError::MissingDependencyError(m, _) ==> r@ == "Missing dependency: "@
                + m@,
    {
        match self {
            TableError::ParseError(m, _) => String::from_str("Failed to parse: ").concat(
                m.as_str(),
            ),
            TableError::InvalidDefinition(m) => String::from_str("Invalid definition: ").concat(
                m.as_str(),
            ),
            TableError::CallError(m) => String::from_str("Invalid call: ").concat(m.as_str()),
            TableError::MissingDependencyError(m, _) => String::from_str(
                "Missing dependency: ",
            ).concat(m.as_str()),
        }
    }
}

// ---------------------------------------------------------------------------
// Validation
// ---------------------------------------------------------------------------
/// Every locally authored table holds rules of literals and dice rolls
/// alone.
pub open spec fn authored_all_simple(tables: Seq<TableDefModel>) -> bool {
    forall|i: int|
        0 <= i < tables.len() ==> ((#[trigger] tables[i]).namespace is None ==> all_simple(
            tables[i],
        ))
}

/// The message of an aborted validation: the offending table's identifier,
/// the offending rule's raw text, and the underlying error's text.
pub open spec fn invalid_def_msg(id: Seq<char>, raw: Seq<char>, em: Seq<char>) -> Seq<char> {
    "in table \""@ + id + "\" for rule \""@ + raw + "\". Original error: \""@ + em + "\""@
}

/// What validation owes for one checked rule: a deterministically missing
/// external reference has its target collected, and a deterministically
/// broken internal reference cannot have been passed over.
pub open spec fn rule_checked(
    tables: Seq<TableDefModel>,
    missing: Seq<Seq<char>>,
    r: RuleModel,
) -> bool {
    &&& (forall|pi: int|
        #[trigger] blocked_external(tables, r, pi) ==> missing.contains(
            interp_target(r.parts[pi]).unwrap(),
        ))
    &&& (forall|pi: int| !(#[trigger] blocked_internal(tables, r, pi)))
    &&& (forall|pi: int| !(#[trigger] blocked_starved(tables, r, pi)))
}

impl TableCollection {
    /// Resolves every rule of every locally authored table once, so that all
    /// textual branches are exercised. Missing dependencies are collected and
    /// returned as data: each returned identifier is one the collection truly
    /// lacks. Any other failure aborts validation as an invalid definition.
    pub fn validate_tables(&self) -> (r: Result<Vec<String>, TableError>)
        requires
            self.wf(),
        ensures
            r is Ok ==> forall|k: int|
                0 <= k < r.unwrap()@.len() ==> lookup(
                    self@.tables,
                    (#[trigger] r.unwrap()@[k])@,
                ) is None,
            r is Err ==> r.unwrap_err() is InvalidDefinition,
            authored_all_simple(self@.tables) ==> r is Ok,
            (forall|t: int, ri: int|
                (0 <= t < self@.tables.len() && self@.tables[t].namespace is None && 0 <= ri
                    < self@.tables[t].rules.len()) ==> benign_rule(
                    self@.tables,
                    #[trigger] self@.tables[t].rules[ri],
                )) ==> r is Ok,
            r is Ok ==> (forall|t: int, ri: int|
                (0 <= t < self@.tables.len() && self@.tables[t].namespace is None && 0 <= ri
                    < self@.tables[t].rules.len()) ==> rule_checked(
                    self@.tables,
                    r.unwrap()@.map_values(|x: String| x@),
                    #[trigger] self@.tables[t].rules[ri],
                )),
            r is Err ==> (r.unwrap_err() matches TableError::InvalidDefinition(m)
                ==> exists|t: int, ri: int, em: Seq<char>|
                0 <= t < self@.tables.len() && self@.tables[t].namespace is None && 0 <= ri
                    < self@.tables[t].rules.len() && m@ == #[trigger] invalid_def_msg(
                    self@.tables[t].id,
                    self@.tables[t].rules[ri].raw,
                    "Invalid call: "@ + em,
                )),
    {
        let mut missing: Vec<String> = Vec::new();
        let mut ti: usize = 0;
        while ti < self.tables.len()
            invariant
                self.wf(),
                ti <= self.tables.len(),
                forall|k: int|
                    0 <= k < missing@.len() ==> lookup(
                        self@.tables,
                        (#[trigger] missing@[k])@,
                    ) is None,
                forall|t: int, ri: int|
                    (0 <= t < ti && self@.tables[t].namespace is None && 0 <= ri
                        < self@.tables[t].rules.len()) ==> rule_checked(
                        self@.tables,
                        missing@.map_values(|x: String| x@),
                        #[trigger] self@.tables[t].rules[ri],
                    ),
            decreases self.tables.len() - ti,
        {
            let table = &self.tables[ti];
            proof {
                assert(table@ == self@.tables[ti as int]);
            }
            if table.namespace.is_none() {
                let mut ri: usize = 0;
                while ri < table.rules.len()
                    invariant
                        self.wf(),
                        ti < self.tables.len(),
                        table == self.tables@[ti as int],
                        table@ == self@.tables[ti as int],
                        table@.namespace is None,
                        ri <= table.rules.len(),
                        forall|k: int|
                            0 <= k < missing@.len() ==> lookup(
                                self@.tables,
                                (#[trigger] missing@[k])@,
                            ) is None,
                        forall|t: int, r2: int|
                            (0 <= t <= ti && (t < ti || r2 < ri) && self@.tables[t].namespace
                                is None && 0 <= r2 < self@.tables[t].rules.len()) ==> rule_checked(
                                self@.tables,
                                missing@.map_values(|x: String| x@),
                                #[trigger] self@.tables[t].rules[r2],
                            ),
                    decreases table.rules.len() - ri,
                {
                    let rule = &table.rules[ri];
                    proof {
                        assert(self.tables@[ti as int].wf());
                        assert(rule@ == table@.rules[ri as int]);
                        assert(rule_wf(rule@));
                    }
                    let ghost old_missing = missing@.map_values(|x: String| x@);
                    match rule.resolve(self) {
                        Ok(_) => {
                            proof {
                                assert forall|pi: int| !(#[trigger] blocked_external(
                                    self@.tables,
                                    rule@,
                                    pi,
                                )) && !(#[trigger] blocked_internal(
                                    self@.tables,
                                    rule@,
                                    pi,
                                )) by {}
                                assert(rule_checked(self@.tables, old_missing, rule@));
                            }
                        },
                        Err(e) => {
                            match e {
                                TableError::MissingDependencyError(_, mid) => {
                                    proof {
                                        assert forall|pi: int| #[trigger] blocked_external(
                                            self@.tables,
                                            rule@,
                                            pi,
                                        ) implies old_missing.push(mid@).contains(
                                            interp_target(rule@.parts[pi]).unwrap(),
                                        ) by {
                                            assert(old_missing.push(mid@).last() == mid@);
                                        }
                                        assert forall|pi: int| !(#[trigger] blocked_internal(
                                            self@.tables,
                                            rule@,
                                            pi,
                                        )) by {}
                                    }
                                    missing.push(mid);
                                    proof {
                                        assert(missing@.map_values(|x: String| x@)
                                            =~= old_missing.push(
                                            missing@[missing@.len() - 1]@,
                                        ));
                                        assert(rule_checked(
                                            self@.tables,
                                            missing@.map_values(|x: String| x@),
                                            rule@,
                                        ));
                                        assert forall|t: int, r2: int|
                                            (0 <= t <= ti && (t < ti as int || r2 < ri as int)
                                                && self@.tables[t].namespace is None && 0 <= r2
                                                < self@.tables[t].rules.len()) implies rule_checked(
                                            self@.tables,
                                            missing@.map_values(|x: String| x@),
                                            #[trigger] self@.tables[t].rules[r2],
                                        ) by {
                                            assert(rule_checked(
                                                self@.tables,
                                                old_missing,
                                                self@.tables[t].rules[r2],
                                            ));
                                            let nm = missing@.map_values(|x: String| x@);
                                            assert forall|pi: int| #[trigger] blocked_external(
                                                self@.tables,
                                                self@.tables[t].rules[r2],
                                                pi,
                                            ) implies nm.contains(
                                                interp_target(
                                                    self@.tables[t].rules[r2].parts[pi],
                                                ).unwrap(),
                                            ) by {
                                                let tgt = interp_target(
                                                    self@.tables[t].rules[r2].parts[pi],
                                                ).unwrap();
                                                assert(old_missing.contains(tgt));
                                                let w = choose|w: int|
                                                    0 <= w < old_missing.len() && old_missing[w]
                                                        == tgt;
                                                assert(nm[w] == tgt);
                                            }
                                        }
                                    }
                                },
                                other => {
                                    proof {
                                        assert(other is CallError);
                                        assert(!all_simple(self@.tables[ti as int]));
                                        assert(!benign_rule(self@.tables, rule@));
                                    }
                                    let em = other.message();
                                    let m = String::from_str("in table \"").concat(
                                        table.id.as_str(),
                                    ).concat("\" for rule \"").concat(rule.raw.as_str()).concat(
                                        "\". Original error: \"",
                                    ).concat(em.as_str()).concat("\"");
                                    proof {
                                        match other {
                                            TableError::CallError(c) => {
                                                assert(em@ == "Invalid call: "@ + c@);
                                                assert(m@ == invalid_def_msg(
                                                    self@.tables[ti as int].id,
                                                    self@.tables[ti as int].rules[ri as int].raw,
                                                    "Invalid call: "@ + c@,
                                                ));
                                            },
                                            _ => {
                                                assert(false);
                                            },
                                        }
                                    }
                                    return Err(TableError::InvalidDefinition(m));
                                },
                            }
                        },
                    }
                    ri += 1;
                }
            }
            ti += 1;
        }
        Ok(missing)
    }

    /// Repeated independent generation from one top-level table.
    pub fn _gen_many(&self, id: &str, count: usize) -> (r: Result<Vec<String>, TableError>)
        requires
            self.wf(),
        ensures
            lookup(self@.tables, id@) is None ==> (r is Err && (r.unwrap_err()
                matches TableError::CallError(m) && m@ == "No table found with id "@ + id@)),
            r is Ok ==> r.unwrap()@.len() == count,
            lookup(self@.tables, id@) matches Some(t) ==> (r is Ok ==> forall|n: int|
                0 <= n < count ==> output_from(self@.tables, t, (#[trigger] r.unwrap()@[n])@)),
            lookup(self@.tables, id@) matches Some(t) ==> (all_simple(t) ==> r is Ok),
            lookup(self@.tables, id@) matches Some(t) ==> (easy_table(self@.tables, t) ==> r
                is Ok),
            lookup(self@.tables, id@) is Some && count == 0 ==> r is Ok,
            r is Err ==> (r.unwrap_err() is CallError || r.unwrap_err()
                is MissingDependencyError),
    {
        let idx = match self.lookup_idx(id) {
            Some(idx) => idx,
            None => {
                let m = String::from_str("No table found with id ").concat(id);
                return Err(TableError::CallError(m));
            },
        };
        let table = &self.tables[idx];
        proof {
            assert(table.wf());
            assert(table@ == lookup(self@.tables, id@).unwrap());
        }
        let mut results: Vec<String> = Vec::new();
        let mut n: usize = 0;
        while n < count
            invariant
                self.wf(),
                table.wf(),
                table@ == lookup(self@.tables, id@).unwrap(),
                lookup(self@.tables, id@) is Some,
                n <= count,
                results@.len() == n,
                forall|k: int|
                    0 <= k < n ==> output_from(self@.tables, table@, (#[trigger] results@[k])@),
            decreases count - n,
        {
            match table.gen(self) {
                Ok(text) => {
                    results.push(text);
                },
                Err(e) => {
                    proof {
                        assert(!all_simple(table@));
                        assert(!easy_table(self@.tables, table@));
                    }
                    return Err(e);
                },
            }
            n += 1;
        }
        proof {
            let t = lookup(self@.tables, id@).unwrap();
            assert(t == table@);
        }
        Ok(results)
    }

    /// Repeated independent generation from one top-level table.
    pub fn gen_many(&self, id: &str, count: usize) -> (r: Result<Vec<String>, TableError>)
        requires
            self.wf(),
        ensures
            lookup(self@.tables, id@) is None ==> (r is Err && (r.unwrap_err()
                matches TableError::CallError(m) && m@ == "No table found with id "@ + id@)),
            r is Ok ==> r.unwrap()@.len() == count,
            lookup(self@.tables, id@) matches Some(t) ==> (r is Ok ==> forall|n: int|
                0 <= n < count ==> output_from(self@.tables, t, (#[trigger] r.unwrap()@[n])@)),
            lookup(self@.tables, id@) matches Some(t) ==> (all_simple(t) ==> r is Ok),
            lookup(self@.tables, id@) matches Some(t) ==> (easy_table(self@.tables, t) ==> r
                is Ok),
            lookup(self@.tables, id@) is Some && count == 0 ==> r is Ok,
            r is Err ==> (r.unwrap_err() is CallError || r.unwrap_err()
                is MissingDependencyError),
    {
        self._gen_many(id, count)
    }
}

// ---------------------------------------------------------------------------
// Metadata
// ---------------------------------------------------------------------------
/// Whether a later table replaces the table at `i`: its fully-qualified
/// identifier reappears further on, so lookup never returns it.
pub open spec fn shadowed_at(tables: Seq<TableDefModel>, i: int) -> bool {
    exists|j: int| i < j < tables.len() && (#[trigger] tables[j]).id == tables[i].id
}

/// Every listed identifier is one a later table truly shadows.
pub open spec fn all_shadowed(tables: Seq<TableDefModel>, ids: Seq<Seq<char>>) -> bool {
    forall|k: int|
        #![trigger ids[k]]
        0 <= k < ids.len() ==> exists|t: int|
            0 <= t < tables.len() && #[trigger] shadowed_at(tables, t) && ids[k] == tables[t].id
}

/// Every table shadowed before `upto` has its identifier listed.
pub open spec fn shadowed_covered(tables: Seq<TableDefModel>, ids: Seq<Seq<char>>, upto: int) -> bool {
    forall|t: int|
        #![trigger shadowed_at(tables, t)]
        0 <= t < upto && shadowed_at(tables, t) ==> ids.contains(tables[t].id)
}

impl TableCollection {
    /// The fully-qualified identifiers of tables that a later table with the
    /// same identifier silently replaces. Identifier collisions are kept
    /// (last write wins) but are almost certainly an authoring mistake, so a
    /// caller can warn on what this returns.
    pub fn shadowed_identifiers(&self) -> (r: Vec<String>)
        ensures
            all_shadowed(self@.tables, r@.map_values(|x: String| x@)),
            shadowed_covered(self@.tables, r@.map_values(|x: String| x@), self@.tables.len() as int),
    {
        let mut out: Vec<String> = Vec::new();
        let mut i: usize = 0;
        proof {
            assert(all_shadowed(self@.tables, out@.map_values(|x: String| x@)));
            assert(shadowed_covered(self@.tables, out@.map_values(|x: String| x@), 0));
        }
        while i < self.tables.len()
            invariant
                i <= self.tables.len(),
                all_shadowed(self@.tables, out@.map_values(|x: String| x@)),
                shadowed_covered(self@.tables, out@.map_values(|x: String| x@), i as int),
            decreases self.tables.len() - i,
        {
            proof {
                assert(self@.tables[i as int] == self.tables@[i as int]@);
            }
            let mut j: usize = i + 1;
            let mut found = false;
            while j < self.tables.len()
                invariant
                    i < j,
                    i < self.tables.len(),
                    found ==> shadowed_at(self@.tables, i as int),
                    !found ==> forall|j2: int|
                        i < j2 < j ==> (#[trigger] self@.tables[j2]).id != self@.tables[
                            i as int
                        ].id,
                ensures
                    found ==> shadowed_at(self@.tables, i as int),
                    !found ==> forall|j2: int|
                        i < j2 < self@.tables.len() ==> (#[trigger] self@.tables[j2]).id
                            != self@.tables[i as int].id,
                decreases self.tables.len() - j,
            {
                proof {
                    assert(self@.tables[j as int] == self.tables@[j as int]@);
                }
                if self.tables[j].id.eq(&self.tables[i].id) {
                    proof {
                        assert(self@.tables[j as int].id == self@.tables[i as int].id);
                        assert(shadowed_at(self@.tables, i as int));
                    }
                    found = true;
                    break;
                }
                j += 1;
            }
            let ghost old_ids = out@.map_values(|x: String| x@);
            if found {
                out.push(self.tables[i].id.clone());
            }
            proof {
                let ids = out@.map_values(|x: String| x@);
                if found {
                    assert(ids =~= old_ids.push(self@.tables[i as int].id));
                } else {
                    assert(ids =~= old_ids);
                    if shadowed_at(self@.tables, i as int) {
                        let j2 = choose|j2: int|
                            i < j2 < self@.tables.len() && (#[trigger] self@.tables[j2]).id
                                == self@.tables[i as int].id;
                        assert(false);
                    }
                }
                assert(all_shadowed(self@.tables, ids)) by {
                    assert forall|k: int|
                        #![trigger ids[k]]
                        0 <= k < ids.len() implies exists|t: int|
                        0 <= t < self@.tables.len() && #[trigger] shadowed_at(self@.tables, t)
                            && ids[k] == self@.tables[t].id by {
                        if k < old_ids.len() {
                            assert(ids[k] == old_ids[k]);
                            let t = choose|t: int|
                                0 <= t < self@.tables.len() && #[trigger] shadowed_at(
                                    self@.tables,
                                    t,
                                ) && old_ids[k] == self@.tables[t].id;
                            assert(ids[k] == self@.tables[t].id);
                        } else {
                            assert(found);
                            assert(ids[k] == self@.tables[i as int].id);
                            assert(shadowed_at(self@.tables, i as int));
                        }
                    }
                }
                assert(shadowed_covered(self@.tables, ids, i + 1)) by {
                    assert forall|t: int|
                        #![trigger shadowed_at(self@.tables, t)]
                        0 <= t < i + 1 && shadowed_at(self@.tables, t) implies ids.contains(
                        self@.tables[t].id,
                    ) by {
                        if t < i as int {
                            assert(old_ids.contains(self@.tables[t].id));
                            let k = choose|k: int|
                                0 <= k < old_ids.len() && old_ids[k] == self@.tables[t].id;
                            assert(ids[k] == self@.tables[t].id);
                        } else {
                            assert(found);
                            assert(ids[ids.len() - 1] == self@.tables[i as int].id);
                        }
                    }
                }
            }
            i += 1;
        }
        out
    }
}

/// Lexicographic order on titles, by character value.
pub open spec fn title_le(a: Seq<char>, b: Seq<char>) -> bool
    decreases a.len(),
{
    if a.len() == 0 {
        true
    } else if b.len() == 0 {
        false
    } else if (a[0] as u32) < (b[0] as u32) {
        true
    } else if (a[0] as u32) > (b[0] as u32) {
        false
    } else {
        title_le(a.skip(1), b.skip(1))
    }
}

/// The title order is total.
pub proof fn lemma_title_le_total(a: Seq<char>, b: Seq<char>)
    ensures
        title_le(a, b) || title_le(b, a),
    decreases a.len(),
{
    if a.len() > 0 && b.len() > 0 && a[0] as u32 == b[0] as u32 {
        lemma_title_le_total(a.skip(1), b.skip(1));
    }
}

/// Compares two titles lexicographically.
fn title_le_exec(a: &str, b: &str) -> (r: bool)
    ensures
        r == title_le(a@, b@),
{
    let alen = a.unicode_len();
    let blen = b.unicode_len();
    let mut k: usize = 0;
    proof {
        assert(a@.skip(0) =~= a@);
        assert(b@.skip(0) =~= b@);
    }
    while k < alen && k < blen
        invariant
            a@.len() == alen as int,
            b@.len() == blen as int,
            k <= alen,
            k <= blen,
            title_le(a@, b@) == title_le(a@.skip(k as int), b@.skip(k as int)),
        decreases alen - k,
    {
        let ca = a.get_char(k);
        let cb = b.get_char(k);
        proof {
            assert(a@.skip(k as int)[0] == a@[k as int]);
            assert(b@.skip(k as int)[0] == b@[k as int]);
            assert(a@.skip(k as int).skip(1) =~= a@.skip(k as int + 1));
            assert(b@.skip(k as int).skip(1) =~= b@.skip(k as int + 1));
        }
        if (ca as u32) < (cb as u32) {
            return true;
        }
        if (ca as u32) > (cb as u32) {
            return false;
        }
        k += 1;
    }
    proof {
        if k == alen {
            assert(a@.skip(k as int).len() == 0);
        } else {
            assert(b@.skip(k as int).len() == 0);
            assert(a@.skip(k as int).len() > 0);
        }
    }
    k == alen
}

/// Inserts a table reference into a title-sorted list, keeping it sorted.
#[verifier::rlimit(100)]
fn insert_by_title<'a>(out: &mut Vec<&'a TableDefinition>, item: &'a TableDefinition)
    ensures
        final(out)@.len() == old(out)@.len() + 1,
        (forall|i: int|
            0 <= i < old(out)@.len() - 1 ==> title_le(
                (#[trigger] old(out)@[i])@.title,
                old(out)@[i + 1]@.title,
            )) ==> (forall|i: int|
            0 <= i < final(out)@.len() - 1 ==> title_le(
                (#[trigger] final(out)@[i])@.title,
                final(out)@[i + 1]@.title,
            )),
        final(out)@.map_values(|t: &TableDefinition| t@).to_multiset() == old(out)@.map_values(
            |t: &TableDefinition| t@,
        ).to_multiset().insert(item@),
{
    broadcast use vstd::seq_lib::to_multiset_insert, vstd::seq_lib::group_to_multiset_ensures;

    let mut pos: usize = 0;
    while pos < out.len() && title_le_exec(out[pos].title.as_str(), item.title.as_str())
        invariant
            out == old(out),
            pos <= out@.len(),
            forall|i: int| 0 <= i < pos ==> title_le((#[trigger] out@[i])@.title, item@.title),
        decreases out@.len() - pos,
    {
        pos += 1;
    }
    proof {
        if pos < out@.len() {
            lemma_title_le_total(out@[pos as int]@.title, item@.title);
        }
    }
    let ghost old_out = out@;
    out.insert(pos, item);
    proof {
        let f = |t: &TableDefinition| t@;
        if (forall|i: int|
            0 <= i < old_out.len() - 1 ==> title_le(
                (#[trigger] old_out[i])@.title,
                old_out[i + 1]@.title,
            )) {
            assert forall|i: int| 0 <= i < out@.len() - 1 implies title_le(
                (#[trigger] out@[i])@.title,
                out@[i + 1]@.title,
            ) by {
                if i + 1 < pos as int {
                    assert(out@[i] == old_out[i] && out@[i + 1] == old_out[i + 1]);
                    assert(title_le(old_out[i]@.title, old_out[i + 1]@.title));
                } else if i + 1 == pos as int {
                    assert(out@[i] == old_out[i] && out@[i + 1] == item);
                    assert(title_le(old_out[i]@.title, item@.title));
                } else if i == pos as int {
                    assert(out@[i] == item && out@[i + 1] == old_out[i]);
                    assert(title_le(item@.title, old_out[i]@.title));
                } else {
                    assert(out@[i] == old_out[i - 1] && out@[i + 1] == old_out[i]);
                    assert(title_le(old_out[i - 1]@.title, old_out[i]@.title));
                }
            }
        }
        assert(out@.map_values(f) =~= old_out.map_values(f).insert(pos as int, item@));
        assert(out@.map_values(f).to_multiset() =~= old_out.map_values(f).to_multiset().insert(
            item@,
        ));
    }
}

impl TableCollection {
    /// The table definitions, sorted by title: introspection for tooling.
    #[verifier::rlimit(100)]
    pub fn table_metadata(&self) -> (r: Vec<&TableDefinition>)
        ensures
            r@.len() == self@.tables.len(),
            forall|i: int|
                0 <= i < r@.len() - 1 ==> title_le(
                    (#[trigger] r@[i])@.title,
                    r@[i + 1]@.title,
                ),
            r@.map_values(|t: &TableDefinition| t@).to_multiset() == self@.tables.to_multiset(),
    {
        broadcast use vstd::seq_lib::to_multiset_build, vstd::seq_lib::to_multiset_insert, vstd::seq_lib::group_to_multiset_ensures;

        let mut out: Vec<&TableDefinition> = Vec::new();
        let mut k: usize = 0;
        proof {
            assert(out@.map_values(|t: &TableDefinition| t@) =~= Seq::<TableDefModel>::empty());
            assert(self@.tables.take(0) =~= Seq::<TableDefModel>::empty());
            assert(out@.map_values(|t: &TableDefinition| t@).to_multiset() =~= self@.tables.take(
                0,
            ).to_multiset());
        }
        while k < self.tables.len()
            invariant
                k <= self.tables.len(),
                out@.len() == k,
                forall|i: int|
                    0 <= i < out@.len() - 1 ==> title_le(
                        (#[trigger] out@[i])@.title,
                        out@[i + 1]@.title,
                    ),
                out@.map_values(|t: &TableDefinition| t@).to_multiset() == self@.tables.take(
                    k as int,
                ).to_multiset(),
            decreases self.tables.len() - k,
        {
            let item = &self.tables[k];
            proof {
                assert(item@ == self@.tables[k as int]);
                assert(self@.tables.take(k + 1) =~= self@.tables.take(k as int).push(
                    self@.tables[k as int],
                ));
                vstd::seq_lib::to_multiset_build(self@.tables.take(k as int), item@);
            }
            insert_by_title(&mut out, item);
            k += 1;
        }
        proof {
            assert(self@.tables.take(self@.tables.len() as int) =~= self@.tables);
        }
        out
    }
}

// ---------------------------------------------------------------------------
// Parsing into the data model
// ---------------------------------------------------------------------------
use crate::parser::TableParse;
use crate::parser::sp_parse_tables;

/// The table definition one parse builds.
pub open spec fn parsed_def(t: TableParse) -> TableDefModel {
    def_of(t.ns, t.id, t.title, t.export, t.rules)
}

/// Whether one parsed table's weights can build a distribution.
pub open spec fn table_valid(t: TableParse) -> bool {
    valid_weights(weights_of(t.rules))
}

/// Whether every parsed table's weights can build a distribution.
pub open spec fn all_tables_valid(ts: Seq<TableParse>) -> bool {
    forall|i: int| 0 <= i < ts.len() ==> table_valid(#[trigger] ts[i])
}

/// Parses the full text of one or more table definitions into constructed
/// table definitions. A grammar failure is a parse error carrying the
/// character offset up to which a prefix parsed; a table whose weights
/// cannot build a distribution is an invalid definition.
pub fn parse_tables(text: &str) -> (r: Result<Vec<TableDefinition>, TableError>)
    ensures
        r is Err ==> (r.unwrap_err() matches TableError::ParseError(_, off) ==> off
            <= text@.len()),
        match sp_parse_tables(text@) {
            None => r is Err && r.unwrap_err() is ParseError,
            Some(ts) => {
                &&& (r is Ok <==> all_tables_valid(ts))
                &&& r is Ok ==> r.unwrap()@.map_values(|t: TableDefinition| t@) == ts.map_values(
                    |t: TableParse| parsed_def(t),
                )
                &&& r is Ok ==> forall|i: int|
                    0 <= i < r.unwrap()@.len() ==> (#[trigger] r.unwrap()@[i]).wf()
                &&& r is Err ==> r.unwrap_err() is InvalidDefinition
            },
        },
{
    let parsed = match crate::parser::parse_tables_raw(text) {
        Ok(p) => p,
        Err((off, expected)) => {
            return Err(TableError::ParseError(String::from_str(expected), off));
        },
    };
    proof {
        crate::parser::lemma_sp_parse_tables_wf(text@);
    }
    let ghost ts = sp_parse_tables(text@).unwrap();
    let mut defs: Vec<TableDefinition> = Vec::new();
    let mut k: usize = 0;
    let parsed_len = parsed.len();
    let mut rest = parsed;
    proof {
        assert(rest@.map_values(|t: crate::parser::ParsedTable| t@) == ts);
        assert(rest@.map_values(|t: crate::parser::ParsedTable| t@).len() == ts.len());
        assert(rest@.map_values(|t: crate::parser::ParsedTable| t@) =~= ts.skip(0));
        assert(defs@.map_values(|t: TableDefinition| t@) =~= ts.take(0).map_values(
            |t: TableParse| parsed_def(t),
        ));
    }
    while k < parsed_len
        invariant
            parsed_len == ts.len(),
            parsed_len == rest@.len() + k,
            k <= parsed_len,
            rest@.map_values(|t: crate::parser::ParsedTable| t@) == ts.skip(k as int),
            ts == sp_parse_tables(text@).unwrap(),
            sp_parse_tables(text@) is Some,
            forall|t: int, j: int|
                0 <= t < ts.len() && 0 <= j < ts[t].rules.len() ==> rule_wf(
                    #[trigger] ts[t].rules[j],
                ),
            forall|i: int| 0 <= i < k ==> table_valid(#[trigger] ts[i]),
            defs@.map_values(|t: TableDefinition| t@) == ts.take(k as int).map_values(
                |t: TableParse| parsed_def(t),
            ),
            forall|i: int| 0 <= i < defs@.len() ==> (#[trigger] defs@[i]).wf(),
        decreases parsed_len - k,
    {
        let ghost old_rest = rest@;
        let pt = rest.remove(0);
        proof {
            let f = |t: crate::parser::ParsedTable| t@;
            assert(old_rest.map_values(f)[0] == ts.skip(k as int)[0]);
            assert(pt == old_rest[0]);
            assert(pt@ == ts.skip(k as int)[0]);
            assert(ts.skip(k as int)[0] == ts[k as int]);
            assert(pt@ == ts[k as int]);
            assert(rest@ =~= old_rest.skip(1));
            assert(rest@.map_values(f) =~= old_rest.map_values(f).skip(1));
            assert(old_rest.map_values(f).skip(1) =~= ts.skip(k as int).skip(1));
            assert(ts.skip(k as int).skip(1) =~= ts.skip(k as int + 1));
            assert(rest@.map_values(f) =~= ts.skip(k as int + 1));
        }
        let ghost ptm = pt@;
        let crate::parser::ParsedTable { namespace, id, title, export, rules } = pt;
        proof {
            assert(ptm.rules == rules@.map_values(|x: Rule| x@));
            assert forall|i: int| 0 <= i < rules@.len() implies rule_wf(
                #[trigger] (rules@[i]@),
            ) by {
                assert(ptm.rules[i] == rules@[i]@);
                assert(rule_wf(ts[k as int].rules[i]));
            }
        }
        match TableDefinition::new(id, namespace, title, export, rules) {
            Ok(def) => {
                proof {
                    assert(def@ == parsed_def(ts[k as int]));
                }
                defs.push(def);
                proof {
                    assert(defs@.map_values(|t: TableDefinition| t@) =~= ts.take(
                        k as int + 1,
                    ).map_values(|t: TableParse| parsed_def(t)));
                }
            },
            Err(e) => {
                proof {
                    assert(!table_valid(ts[k as int]));
                }
                return Err(e);
            },
        }
        k += 1;
    }
    proof {
        assert(ts.take(ts.len() as int) =~= ts);
    }
    Ok(defs)
}

impl TableCollection {
    /// Builds and validates a collection in one step: parses the definition
    /// text, accumulates the external namespaces of locally authored tables,
    /// holds every table under its fully-qualified identifier, and runs the
    /// collection validator. Parse failures abort the whole build; so does
    /// any validation failure other than a missing dependency.
    pub fn new(table_definitions: &str) -> (r: Result<TableCollection, TableError>)
        ensures
            sp_parse_tables(table_definitions@) is None ==> r is Err && r.unwrap_err()
                is ParseError,
            r is Ok ==> r.unwrap().wf(),
            r is Ok ==> (sp_parse_tables(table_definitions@) matches Some(ts) && r.unwrap()@.tables
                == ts.map_values(|t: TableParse| parsed_def(t)) && r.unwrap()@.externals
                == collection_externals(ts.map_values(|t: TableParse| parsed_def(t)))),
            r is Err ==> (r.unwrap_err() is ParseError || r.unwrap_err() is InvalidDefinition),
            r is Err ==> (r.unwrap_err() is ParseError ==> sp_parse_tables(
                table_definitions@,
            ) is None),
            r is Err ==> (r.unwrap_err() matches TableError::ParseError(_, off) ==> off
                <= table_definitions@.len()),
            sp_parse_tables(table_definitions@) matches Some(ts) ==> ((all_tables_valid(ts)
                && authored_all_simple(ts.map_values(|t: TableParse| parsed_def(t)))) ==> r
                is Ok),
            sp_parse_tables(table_definitions@) matches Some(ts) ==> ((all_tables_valid(ts)
                && (forall|t: int, ri: int|
                    #![trigger parsed_def(ts[t]).rules[ri]]
                    (0 <= t < ts.len() && parsed_def(ts[t]).namespace is None && 0 <= ri
                        < parsed_def(ts[t]).rules.len()) ==> benign_rule(
                        ts.map_values(|t2: TableParse| parsed_def(t2)),
                        parsed_def(ts[t]).rules[ri],
                    ))) ==> r is Ok),
            r is Ok ==> (forall|t: int, ri: int, pi: int|
                (0 <= t < r.unwrap()@.tables.len() && r.unwrap()@.tables[t].namespace is None
                    && 0 <= ri < r.unwrap()@.tables[t].rules.len()) ==> !(
                #[trigger] blocked_internal(r.unwrap()@.tables, r.unwrap()@.tables[t].rules[ri], pi))),
            r is Ok ==> (forall|t: int, ri: int, pi: int|
                (0 <= t < r.unwrap()@.tables.len() && r.unwrap()@.tables[t].namespace is None
                    && 0 <= ri < r.unwrap()@.tables[t].rules.len()) ==> !(
                #[trigger] blocked_starved(r.unwrap()@.tables, r.unwrap()@.tables[t].rules[ri], pi))),
    {
        let tables = match parse_tables(table_definitions) {
            Ok(ts) => ts,
            Err(e) => {
                return Err(e);
            },
        };
        let collection = TableCollection::from_tables(tables);
        proof {
            if sp_parse_tables(table_definitions@) is Some {
                let ts = sp_parse_tables(table_definitions@).unwrap();
                assert(collection@.tables == ts.map_values(|t2: TableParse| parsed_def(t2)));
                if (forall|t: int, ri: int|
                    #![trigger parsed_def(ts[t]).rules[ri]]
                    (0 <= t < ts.len() && parsed_def(ts[t]).namespace is None && 0 <= ri
                        < parsed_def(ts[t]).rules.len()) ==> benign_rule(
                        ts.map_values(|t2: TableParse| parsed_def(t2)),
                        parsed_def(ts[t]).rules[ri],
                    )) {
                    assert forall|t: int, ri: int|
                        (0 <= t < collection@.tables.len() && collection@.tables[t].namespace
                            is None && 0 <= ri < collection@.tables[t].rules.len()) implies benign_rule(
                        collection@.tables,
                        #[trigger] collection@.tables[t].rules[ri],
                    ) by {
                        assert(collection@.tables[t] == parsed_def(ts[t]));
                    }
                }
            }
        }
        match collection.validate_tables() {
            Ok(listed) => {
                proof {
                    let lv = listed@.map_values(|x: String| x@);
                    assert forall|t: int, ri: int, pi: int|
                        #![trigger blocked_internal(collection@.tables, collection@.tables[t].rules[ri], pi)]
                        #![trigger blocked_starved(collection@.tables, collection@.tables[t].rules[ri], pi)]
                        (0 <= t < collection@.tables.len() && collection@.tables[t].namespace
                            is None && 0 <= ri < collection@.tables[t].rules.len()) implies (
                    !blocked_internal(collection@.tables, collection@.tables[t].rules[ri], pi)
                        && !blocked_starved(
                        collection@.tables,
                        collection@.tables[t].rules[ri],
                        pi,
                    )) by {
                        assert(rule_checked(
                            collection@.tables,
                            lv,
                            collection@.tables[t].rules[ri],
                        ));
                    }
                }
                Ok(collection)
            },
            Err(e) => Err(e),
        }
    }
}

} // verus!
