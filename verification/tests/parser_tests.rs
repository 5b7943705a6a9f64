use tabol::collection::parse_tables;
use tabol::model::FilterOp;
use tabol::model::RuleInst;
use tabol::parser::filters;
use tabol::parser::imported_rule_interpolation;
use tabol::parser::join_filter;
use tabol::parser::namespace;
use tabol::parser::namespace_ident;
use tabol::parser::namespace_pragma;
use tabol::parser::rule;
use tabol::parser::rule_line;
use tabol::sampler::WeightedDist;

#[test]
fn test_frontmatter() {
    let table_definitions = parse_tables(
        "---
id: color
title: Colors
---
1: Redish Orange
3: Greenish Blue
1: Purplish Pink
3: Brownish Grey

---
id: shape
title: Shapes
---
1: Circle
1: Square
1: Triangle
1: Rectangle
1: Pentagon
1: Hexagon
1: Octagon",
    )
    .expect("Failed to parse");

    assert_eq!(table_definitions.len(), 2, "Expected 2 table definitions");

    if let [a, b] = table_definitions.as_slice() {
        assert_eq!(a.id, "color");
        assert_eq!(a.title, "Colors");
        assert_eq!(a.namespace, None);
        assert!(!a.export);
        assert_eq!(a.weights, vec![1_000_000, 3_000_000, 1_000_000, 3_000_000]);
        assert_eq!(
            a.distribution,
            WeightedDist::new(&vec![1_000_000, 3_000_000, 1_000_000, 3_000_000]).unwrap()
        );

        assert_eq!(b.id, "shape");
        assert_eq!(b.title, "Shapes");
        assert_eq!(b.namespace, None);
        assert!(!b.export);
        assert_eq!(
            b.weights,
            vec![1_000_000, 1_000_000, 1_000_000, 1_000_000, 1_000_000, 1_000_000, 1_000_000]
        );
        assert_eq!(
            b.distribution,
            WeightedDist::new(&vec![
                1_000_000, 1_000_000, 1_000_000, 1_000_000, 1_000_000, 1_000_000, 1_000_000
            ])
            .unwrap()
        );
    }
}

#[test]
fn namespace_pragma_test() {
    let result = namespace_pragma("@@PRAGMA namespace=@hello/there\n");

    assert!(result.is_some());

    if let Some(ns) = result {
        assert_eq!(ns, "@hello/there");
    }
}

#[test]
fn namespace_test() {
    let result = namespace("abc@123-some/thing_else");

    assert!(result.is_none());

    let result = namespace("@hello/there");

    assert!(result.is_some());
    assert_eq!(result.unwrap(), "@hello/there");
}

#[test]
fn namespace_ident_test() {
    let result = namespace_ident("@hello/there");

    assert!(result.is_none());

    let result = namespace_ident("@hello/there/friend");

    assert!(result.is_some());
    assert_eq!(result.unwrap(), "@hello/there/friend");
}

#[test]
fn imported_rule_interpolation_test() {
    let result = imported_rule_interpolation("{@hello/there/friend|capitalize}");

    assert!(result.is_some());
    let rule_inst = result.unwrap();

    assert!(matches!(rule_inst, RuleInst::ExternalInterpolation(..)));

    if let RuleInst::ExternalInterpolation(ns, id, nsid, _filters) = rule_inst {
        assert_eq!(ns.as_str(), "@hello/there");
        assert_eq!(id.as_str(), "friend");
        assert_eq!(nsid.as_str(), "@hello/there/friend");
    }
}

#[test]
fn rule_line_literal_test() {
    let result = rule_line("1: literal");

    assert!(result.is_some());
    let rule = result.unwrap();

    assert_eq!(rule.weight, 1_000_000);
    assert_eq!(&rule.parts.len(), &1);
    assert!(matches!(&rule.parts[0], RuleInst::Literal(..)));

    if let RuleInst::Literal(lit) = &rule.parts[0] {
        assert_eq!(lit.as_str(), "literal");
    }
}

#[test]
fn rule_line_dice_roll_test() {
    let result = rule_line("1: {3d6}");

    assert!(result.is_some());
    let rule = result.unwrap();

    assert_eq!(rule.weight, 1_000_000);
    assert_eq!(&rule.parts.len(), &1);
    assert!(matches!(&rule.parts[0], RuleInst::DiceRoll(..)));

    if let RuleInst::DiceRoll(dice_count, dice_size) = &rule.parts[0] {
        assert_eq!(*dice_count, 3);
        assert_eq!(*dice_size, 6);
    }
}

#[test]
fn rule_line_interpolation_test() {
    let result = rule_line("1: {table}");

    assert!(result.is_some());
    let rule = result.unwrap();

    assert_eq!(rule.weight, 1_000_000);
    assert_eq!(&rule.parts.len(), &1);
    assert!(matches!(&rule.parts[0], RuleInst::Interpolation(..)));

    if let RuleInst::Interpolation(table_id, filters) = &rule.parts[0] {
        assert_eq!(table_id, &String::from("table"));
        assert_eq!(filters.len(), 0);
    }
}

#[test]
fn rule_line_external_interpolation_test() {
    let result = rule_line("1: {@user/collection/table}");

    assert!(result.is_some());
    let rule = result.unwrap();

    assert_eq!(rule.weight, 1_000_000);
    assert_eq!(&rule.parts.len(), &1);
    assert!(matches!(&rule.parts[0], RuleInst::ExternalInterpolation(..)));

    if let RuleInst::ExternalInterpolation(namespace, table_id, namespaced_id, filters) =
        &rule.parts[0]
    {
        assert_eq!(namespace, &String::from("@user/collection"));
        assert_eq!(table_id, &String::from("table"));
        assert_eq!(namespaced_id, &String::from("@user/collection/table"));
        assert_eq!(filters.len(), 0);
    }
}

#[test]
fn rule_line_filters_test() {
    let result = rule_line("1: {table|definite|indefinite|capitalize}");

    assert!(result.is_some());
    let rule = result.unwrap();

    assert_eq!(rule.weight, 1_000_000);
    assert_eq!(&rule.parts.len(), &1);
    assert!(matches!(&rule.parts[0], RuleInst::Interpolation(..)));

    if let RuleInst::Interpolation(_table_id, filters) = &rule.parts[0] {
        assert_eq!(filters.len(), 3);
        assert!(matches!(
            filters.as_slice(),
            [
                FilterOp::DefiniteArticle,
                FilterOp::IndefiniteArticle,
                FilterOp::Capitalize
            ]
        ));
    }
}

#[test]
fn rule_line_filters_unique_join_test() {
    let result = rule_line("1: {table|unique(3)|join(', ')}");

    assert!(result.is_some());
    let rule = result.unwrap();

    assert_eq!(rule.weight, 1_000_000);
    assert_eq!(&rule.parts.len(), &1);
    assert!(matches!(&rule.parts[0], RuleInst::Interpolation(..)));

    if let RuleInst::Interpolation(_table_id, filters) = &rule.parts[0] {
        assert_eq!(filters.len(), 2);
        assert!(matches!(
            filters.as_slice(),
            [FilterOp::Unique(3), FilterOp::Join(..)]
        ));

        if let FilterOp::Join(sep, conj) = &filters[1] {
            assert_eq!(sep, ", ");
            assert_eq!(conj, &None);
        }
    }
}

#[test]
fn rule_line_filters_invalid_join_before_unique_test() {
    let result = rule_line("1: {table|join(', ')|unique(3)}");

    assert!(result.is_none());
}

#[test]
fn rule_line_filters_invalid_capitalize_after_unique_test() {
    let result = rule_line("1: {table|unique(3)|capitalize}");

    assert!(result.is_none());
}

#[test]
fn rule_line_filters_invalid_capitalize_after_join_test() {
    let result = rule_line("1: {table|join(', ')|capitalize}");

    assert!(result.is_none());
}

#[test]
fn rule_line_filters_invalid_garbage_filter_test() {
    let result = rule_line("1: literal {table|garbage}");

    assert!(result.is_none());
}

#[test]
fn rule_test() {
    let result = rule("{table|unique(3)}");

    assert!(result.is_some());

    let result = rule("literal {table|}");

    assert!(result.is_none());
}

#[test]
fn join_filter_test() {
    let result = join_filter("join(', ')");

    assert!(result.is_some());
    let filter = result.unwrap();

    assert!(matches!(&filter, FilterOp::Join(..)));

    if let FilterOp::Join(separator, conjunction) = &filter {
        assert_eq!(separator, ", ");
        assert!(conjunction.is_none());
    }
}

#[test]
fn join_filter_conjunction_test() {
    let result = join_filter("join(', ', ' or ')");

    assert!(result.is_some());
    let filter = result.unwrap();

    assert!(matches!(&filter, FilterOp::Join(..)));

    if let FilterOp::Join(separator, conjunction) = &filter {
        assert_eq!(separator, ", ");
        assert!(conjunction.is_some());

        if let Some(conj) = conjunction {
            assert_eq!(conj, " or ");
        }
    }
}

#[test]
fn filters_invalid_test() {
    let result = filters("|");

    assert!(result.is_none());

    let result = filters("|derp");

    assert!(result.is_none());
}

#[test]
fn filter_order_rejected_both_ways_test() {
    assert!(rule("{table|join(', ')|unique(3)}").is_none());
    assert!(rule("{table|unique(3)|capitalize}").is_none());
}

#[test]
fn namespace_pragma_rewrites_internal_references_test() {
    let tables = parse_tables(
        "@@PRAGMA namespace=@ns/id
---
id: parent
title: Parent
---
1: {local} and {@other/ns/table}",
    )
    .expect("Failed to parse");

    assert_eq!(tables.len(), 1);
    assert_eq!(tables[0].id, "@ns/id/parent");
    assert_eq!(tables[0].namespace, Some("@ns/id".to_string()));

    let parts = &tables[0].rules[0].parts;
    assert!(matches!(&parts[0], RuleInst::Interpolation(id, _) if id == "@ns/id/local"));
    assert!(matches!(
        &parts[2],
        RuleInst::ExternalInterpolation(ns, id, nsid, _)
            if ns == "@other/ns" && id == "table" && nsid == "@other/ns/table"
    ));
}

#[test]
fn rule_round_trip_test() {
    let line = rule_line("1: before {2d8} {target|definite} after").unwrap();
    assert_eq!(line.raw, "before {2d8} {target|definite} after");

    let reparsed = rule(line.raw.as_str()).unwrap();
    assert_eq!(reparsed, line.parts);
}

#[test]
fn export_attribute_test() {
    let tables = parse_tables(
        "---
id: color
title: Colors
export: true
---
1: Red",
    )
    .expect("Failed to parse");

    assert_eq!(tables.len(), 1);
    assert!(tables[0].export);

    assert!(parse_tables(
        "---
id: color
title: Colors
export: maybe
---
1: Red",
    )
    .is_err());
}

#[test]
fn parse_error_reports_offset_test() {
    let result = parse_tables("not a table at all");
    assert!(result.is_err());
    assert!(matches!(
        result.unwrap_err(),
        tabol::model::TableError::ParseError(_, _)
    ));
}

#[test]
fn fractional_weight_test() {
    let line = rule_line("1.5: heavy").unwrap();
    assert_eq!(line.weight, 1_500_000);

    let line = rule_line("0.25: light").unwrap();
    assert_eq!(line.weight, 250_000);
}

#[test]
fn zero_total_weight_rejected_test() {
    let result = parse_tables(
        "---
id: color
title: Colors
---
0: Red
0: Blue",
    );
    assert!(matches!(
        result,
        Err(tabol::model::TableError::InvalidDefinition(_))
    ));
}

#[test]
fn parse_error_locates_failing_line_test() {
    let result = parse_tables(
        "---
id: color
title: Colors
---
1: {table|garbage}",
    );
    match result {
        Err(tabol::model::TableError::ParseError(expected, offset)) => {
            assert_eq!(offset, 32);
            assert!(expected.contains("expected a weighted rule"));
        }
        other => panic!("Unexpected result: {:?}", other),
    }

    let result = parse_tables(
        "---
id: color
name: oops
---
1: Red",
    );
    match result {
        Err(tabol::model::TableError::ParseError(expected, offset)) => {
            assert_eq!(offset, 14);
            assert!(expected.contains("expected a title attribute"));
        }
        other => panic!("Unexpected result: {:?}", other),
    }
}
