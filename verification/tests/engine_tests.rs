use tabol::collection::TableCollection;
use tabol::collection::TableDefinition;
use tabol::model::FilterOp;
use tabol::model::Rule;
use tabol::model::RuleInst;
use tabol::model::TableError;
use tabol::sampler::WeightedDist;
use tabol::sampler::roll_dice;

fn table(id: &str, title: &str, rules: Vec<Rule>) -> TableDefinition {
    TableDefinition::new(id.to_string(), None, title.to_string(), false, rules).unwrap()
}

fn literal_rule(text: &str) -> Rule {
    Rule {
        raw: text.to_string(),
        weight: 1_000_000,
        parts: vec![RuleInst::Literal(text.to_string())],
    }
}

#[test]
fn table_collection_test_roll_dice() {
    for _ in 0..10000 {
        let roll = roll_dice(1, 6);
        assert!(roll >= 1);
        assert!(roll <= 6);
    }

    for _ in 0..10000 {
        let roll = roll_dice(5, 10);
        assert!(roll >= 5);
        assert!(roll <= 50);
    }
}

#[test]
fn tabol_test_roll_dice() {
    for _ in 0..10000 {
        let roll = roll_dice(1, 6);
        assert!(roll >= 1);
        assert!(roll <= 6);
    }

    for _ in 0..10000 {
        let roll = roll_dice(5, 10);
        assert!(roll >= 5);
        assert!(roll <= 50);
    }
}

#[test]
fn test_rule_resolve_simple_interpolation() {
    let parent = table(
        "parent",
        "Parent",
        vec![Rule {
            raw: "parent {child}".to_string(),
            weight: 1_000_000,
            parts: vec![
                RuleInst::Literal("parent ".to_string()),
                RuleInst::Interpolation("child".to_string(), vec![]),
            ],
        }],
    );

    let child = table("child", "Child", vec![literal_rule("child text")]);

    let collection = TableCollection::from_tables(vec![parent, child]);

    let result = collection._gen("parent", false);

    assert!(result.is_ok());

    if let Ok(text) = result {
        assert_eq!(text, "parent child text");
    }
}

#[test]
fn test_rule_resolve_unique_interpolation() {
    let parent = table(
        "parent",
        "Parent",
        vec![Rule {
            raw: "parent {child|unique(2)}".to_string(),
            weight: 1_000_000,
            parts: vec![
                RuleInst::Literal("parent ".to_string()),
                RuleInst::Interpolation("child".to_string(), vec![FilterOp::Unique(2)]),
            ],
        }],
    );

    let child = table(
        "child",
        "Child",
        vec![literal_rule("child 1"), literal_rule("child 2")],
    );

    let collection = TableCollection::from_tables(vec![parent, child]);

    let result = collection._gen("parent", false);

    assert!(result.is_ok());

    if let Ok(text) = result {
        assert!(text == "parent child 1child 2" || text == "parent child 2child 1");
    }
}

#[test]
fn test_rule_resolve_unique_interpolation_failure() {
    let parent = table(
        "parent",
        "Parent",
        vec![Rule {
            raw: "parent {child|unique(2)}".to_string(),
            weight: 1_000_000,
            parts: vec![
                RuleInst::Literal("parent ".to_string()),
                RuleInst::Interpolation("child".to_string(), vec![FilterOp::Unique(2)]),
            ],
        }],
    );

    let child = table("child", "Child", vec![literal_rule("child 1")]);

    let collection = TableCollection::from_tables(vec![parent, child]);

    let result = collection._gen("parent", false);

    assert!(result.is_err());

    if let Err(TableError::CallError(msg)) = result {
        assert_eq!(
            msg,
            "Failed to generate unique result for rule parent {child|unique(2)} after 20 attempts"
        );
    } else {
        panic!("Unexpected result: {:?}", result);
    }
}

#[test]
fn test_rule_resolve_unique_interpolation_with_filters_and_join() {
    let parent = table(
        "parent",
        "Parent",
        vec![Rule {
            raw: "parent {child|indefinite|capitalize|unique(2)|join(', ')}".to_string(),
            weight: 1_000_000,
            parts: vec![
                RuleInst::Literal("parent ".to_string()),
                RuleInst::Interpolation(
                    "child".to_string(),
                    vec![
                        FilterOp::IndefiniteArticle,
                        FilterOp::Capitalize,
                        FilterOp::Unique(2),
                        FilterOp::Join(", ".to_string(), None),
                    ],
                ),
            ],
        }],
    );

    let child = table(
        "child",
        "Child",
        vec![literal_rule("child 1"), literal_rule("child 2")],
    );

    let collection = TableCollection::from_tables(vec![parent, child]);

    let result = collection._gen("parent", false);

    assert!(result.is_ok());

    if let Ok(text) = result {
        assert!(text == "parent A child 1, A child 2" || text == "parent A child 2, A child 1");
    }
}

#[test]
fn join_with_conjunction_test() {
    let parent = table(
        "parent",
        "Parent",
        vec![Rule {
            raw: "{child|unique(2)|join(', ', ' or ')}".to_string(),
            weight: 1_000_000,
            parts: vec![RuleInst::Interpolation(
                "child".to_string(),
                vec![
                    FilterOp::Unique(2),
                    FilterOp::Join(", ".to_string(), Some(" or ".to_string())),
                ],
            )],
        }],
    );

    let child = table("child", "Child", vec![literal_rule("x"), literal_rule("y")]);

    let collection = TableCollection::from_tables(vec![parent, child]);

    let text = collection._gen("parent", false).unwrap();
    assert!(text == "x or y" || text == "y or x");
}

#[test]
fn literal_table_always_generates_same_text_test() {
    let t = table(
        "only",
        "Only",
        vec![literal_rule("x"), literal_rule("x"), literal_rule("x")],
    );
    let collection = TableCollection::from_tables(vec![t]);

    for _ in 0..100 {
        assert_eq!(collection._gen("only", false).unwrap(), "x");
    }
}

#[test]
fn dice_generation_ranges_test() {
    let three_d_six = table(
        "roll",
        "Roll",
        vec![Rule {
            raw: "{3d6}".to_string(),
            weight: 1_000_000,
            parts: vec![RuleInst::DiceRoll(3, 6)],
        }],
    );
    let collection = TableCollection::from_tables(vec![three_d_six]);

    for _ in 0..1000 {
        let text = collection._gen("roll", false).unwrap();
        let value: u64 = text.parse().unwrap();
        assert!((3..=18).contains(&value));
    }

    let one_d_one = table(
        "one",
        "One",
        vec![Rule {
            raw: "{1d1}".to_string(),
            weight: 1_000_000,
            parts: vec![RuleInst::DiceRoll(1, 1)],
        }],
    );
    let collection = TableCollection::from_tables(vec![one_d_one]);

    for _ in 0..100 {
        assert_eq!(collection._gen("one", false).unwrap(), "1");
    }
}

#[test]
fn implicit_count_die_resolves_to_one_test() {
    let tables = tabol::collection::parse_tables(
        "---
id: one
title: One
---
1: {d1}",
    )
    .unwrap();
    let collection = TableCollection::from_tables(tables);
    for _ in 0..100 {
        assert_eq!(collection._gen("one", false).unwrap(), "1");
    }
}

#[test]
fn missing_internal_table_is_call_error_test() {
    let t = table("a", "A", vec![literal_rule("a")]);
    let collection = TableCollection::from_tables(vec![t]);

    let result = collection._gen("nope", false);
    assert!(matches!(
        result,
        Err(TableError::CallError(msg)) if msg == "No table found with id nope"
    ));
}

#[test]
fn missing_external_table_is_missing_dependency_test() {
    let t = table("a", "A", vec![literal_rule("a")]);
    let collection = TableCollection::from_tables(vec![t]);

    let result = collection._gen("@other/ns/table", true);
    assert!(matches!(
        result,
        Err(TableError::MissingDependencyError(_, id)) if id == "@other/ns/table"
    ));
}

#[test]
fn validate_tables_collects_missing_external_identifiers_test() {
    let collection = TableCollection::new(
        "---
id: parent
title: Parent
---
1: {@miss/ing/table}",
    )
    .unwrap();

    assert_eq!(collection.dependencies(), vec!["@miss/ing".to_string()]);

    let missing = collection.validate_tables().unwrap();
    assert_eq!(missing, vec!["@miss/ing/table".to_string()]);
}

#[test]
fn validate_tables_rejects_unique_overflow_test() {
    let result = TableCollection::new(
        "---
id: parent
title: Parent
---
1: {child|unique(2)}

---
id: child
title: Child
---
1: only",
    );

    assert!(matches!(result, Err(TableError::InvalidDefinition(_))));
}

#[test]
fn gen_many_count_test() {
    let t = table("only", "Only", vec![literal_rule("x")]);
    let collection = TableCollection::from_tables(vec![t]);

    let results = collection.gen_many("only", 7).unwrap();
    assert_eq!(results.len(), 7);
    for r in results {
        assert_eq!(r, "x");
    }

    assert!(collection.gen_many("missing", 3).is_err());
}

#[test]
fn table_metadata_sorted_by_title_test() {
    let shapes = table("shape", "Shapes", vec![literal_rule("Circle")]);
    let colors = table("color", "Colors", vec![literal_rule("Red")]);
    let animals = table("animal", "Animals", vec![literal_rule("Cat")]);
    let collection = TableCollection::from_tables(vec![shapes, colors, animals]);

    let metadata = collection.table_metadata();
    let titles: Vec<&str> = metadata.iter().map(|d| d.title.as_str()).collect();
    assert_eq!(titles, vec!["Animals", "Colors", "Shapes"]);
}

#[test]
fn weighted_dist_construction_test() {
    assert!(WeightedDist::new(&vec![]).is_err());
    assert!(WeightedDist::new(&vec![0, 0, 0]).is_err());

    let dist = WeightedDist::new(&vec![0, 2, 1]).unwrap();
    for _ in 0..1000 {
        let i = dist.sample();
        assert!(i == 1 || i == 2);
    }
}

#[test]
fn filter_apply_test() {
    let mut value = "apple".to_string();
    FilterOp::IndefiniteArticle.apply(&mut value);
    assert_eq!(value, "an apple");

    let mut value = "pear".to_string();
    FilterOp::IndefiniteArticle.apply(&mut value);
    assert_eq!(value, "a pear");

    let mut value = "sword".to_string();
    FilterOp::DefiniteArticle.apply(&mut value);
    assert_eq!(value, "the sword");

    let mut value = "apple pie".to_string();
    FilterOp::Capitalize.apply(&mut value);
    assert_eq!(value, "Apple pie");

    let mut value = "".to_string();
    FilterOp::Capitalize.apply(&mut value);
    assert_eq!(value, "");

    let mut value = "kept".to_string();
    FilterOp::Unique(2).apply(&mut value);
    assert_eq!(value, "kept");
}

#[test]
fn recursion_limit_reported_as_call_error_test() {
    let selfloop = table(
        "loop_table",
        "Loop",
        vec![Rule {
            raw: "{loop_table}".to_string(),
            weight: 1_000_000,
            parts: vec![RuleInst::Interpolation("loop_table".to_string(), vec![])],
        }],
    );
    let collection = TableCollection::from_tables(vec![selfloop]);

    let result = collection._gen("loop_table", false);
    assert!(matches!(result, Err(TableError::CallError(_))));
}

#[test]
fn last_table_wins_on_identifier_collision_test() {
    let first = table("dup", "First", vec![literal_rule("first")]);
    let second = table("dup", "Second", vec![literal_rule("second")]);
    let collection = TableCollection::from_tables(vec![first, second]);

    for _ in 0..20 {
        assert_eq!(collection._gen("dup", false).unwrap(), "second");
    }
}

#[test]
fn missing_internal_reference_in_rule_is_call_error_test() {
    let parent = table(
        "parent",
        "Parent",
        vec![Rule {
            raw: "{nope}".to_string(),
            weight: 1_000_000,
            parts: vec![RuleInst::Interpolation("nope".to_string(), vec![])],
        }],
    );
    let collection = TableCollection::from_tables(vec![parent]);

    let result = collection._gen("parent", false);
    assert!(matches!(
        result,
        Err(TableError::CallError(msg)) if msg == "No table found with id nope"
    ));
}

#[test]
fn missing_external_reference_in_rule_is_missing_dependency_test() {
    let parent = table(
        "parent",
        "Parent",
        vec![Rule {
            raw: "{@miss/ing/table}".to_string(),
            weight: 1_000_000,
            parts: vec![RuleInst::ExternalInterpolation(
                "@miss/ing".to_string(),
                "table".to_string(),
                "@miss/ing/table".to_string(),
                vec![],
            )],
        }],
    );
    let collection = TableCollection::from_tables(vec![parent]);

    let result = collection._gen("parent", false);
    assert!(matches!(
        result,
        Err(TableError::MissingDependencyError(_, id)) if id == "@miss/ing/table"
    ));
}

#[test]
fn validate_aborts_on_broken_internal_reference_test() {
    let parent = table(
        "parent",
        "Parent",
        vec![Rule {
            raw: "{nope}".to_string(),
            weight: 1_000_000,
            parts: vec![RuleInst::Interpolation("nope".to_string(), vec![])],
        }],
    );
    let collection = TableCollection::from_tables(vec![parent]);

    let result = collection.validate_tables();
    assert!(matches!(
        result,
        Err(TableError::InvalidDefinition(msg))
            if msg.contains("in table \"parent\" for rule \"{nope}\"")
    ));

    let built = TableCollection::new(
        "---
id: parent
title: Parent
---
1: {nope}",
    );
    assert!(matches!(built, Err(TableError::InvalidDefinition(_))));
}

#[test]
fn unique_exhaustion_with_fewer_distinct_outputs_test() {
    let parent = table(
        "parent",
        "Parent",
        vec![Rule {
            raw: "{child|unique(3)}".to_string(),
            weight: 1_000_000,
            parts: vec![RuleInst::Interpolation(
                "child".to_string(),
                vec![FilterOp::Unique(3)],
            )],
        }],
    );

    let child = table(
        "child",
        "Child",
        vec![literal_rule("a"), literal_rule("a"), literal_rule("b")],
    );

    let collection = TableCollection::from_tables(vec![parent, child]);

    let result = collection._gen("parent", false);
    assert!(matches!(
        result,
        Err(TableError::CallError(msg))
            if msg == "Failed to generate unique result for rule {child|unique(3)} after 20 attempts"
    ));
}

#[test]
fn unique_exhaustion_after_filters_collapse_test() {
    let parent = table(
        "parent",
        "Parent",
        vec![Rule {
            raw: "{child|capitalize|unique(2)}".to_string(),
            weight: 1_000_000,
            parts: vec![RuleInst::Interpolation(
                "child".to_string(),
                vec![FilterOp::Capitalize, FilterOp::Unique(2)],
            )],
        }],
    );

    let child = table(
        "child",
        "Child",
        vec![literal_rule("apple"), literal_rule("Apple")],
    );

    let collection = TableCollection::from_tables(vec![parent, child]);

    let result = collection._gen("parent", false);
    assert!(matches!(
        result,
        Err(TableError::CallError(msg))
            if msg == "Failed to generate unique result for rule {child|capitalize|unique(2)} after 20 attempts"
    ));
}

#[test]
fn gen_many_zero_count_test() {
    let parent = table(
        "parent",
        "Parent",
        vec![Rule {
            raw: "{child|unique(2)}".to_string(),
            weight: 1_000_000,
            parts: vec![RuleInst::Interpolation(
                "child".to_string(),
                vec![FilterOp::Unique(2)],
            )],
        }],
    );
    let child = table("child", "Child", vec![literal_rule("only")]);
    let collection = TableCollection::from_tables(vec![parent, child]);

    let results = collection.gen_many("parent", 0).unwrap();
    assert!(results.is_empty());
}

#[test]
fn validate_aborts_on_starved_unique_test() {
    let result = TableCollection::new(
        "---
id: parent
title: Parent
---
1: {child|unique(3)}

---
id: child
title: Child
---
1: a
1: a
1: b",
    );
    assert!(matches!(result, Err(TableError::InvalidDefinition(msg))
        if msg.contains("Original error: \"Invalid call: ")));
}

#[test]
fn shadowed_identifiers_test() {
    let first = table("dup", "First", vec![literal_rule("first")]);
    let second = table("dup", "Second", vec![literal_rule("second")]);
    let other = table("other", "Other", vec![literal_rule("other")]);
    let collection = TableCollection::from_tables(vec![first, second, other]);

    assert_eq!(collection.shadowed_identifiers(), vec!["dup".to_string()]);

    let a = table("a", "A", vec![literal_rule("a")]);
    let b = table("b", "B", vec![literal_rule("b")]);
    let collection = TableCollection::from_tables(vec![a, b]);
    assert!(collection.shadowed_identifiers().is_empty());
}
