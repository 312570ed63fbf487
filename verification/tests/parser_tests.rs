use usequence::parser::PrerequisiteParser;
use usequence::prerequisite_tree::CourseNode;
use usequence::prerequisite_tree::LogicNode;
use usequence::prerequisite_tree::MinCreditNode;
use usequence::prerequisite_tree::PrerequisiteTree;

#[test]
fn basic_or_test() {
    let input = String::from("ITI 1120 or GNG 1106.");
    let expected = PrerequisiteTree::OrNode(LogicNode::new(
        PrerequisiteTree::CourseNode(CourseNode {
            subject_code: String::from("ITI"),
            catalog_code: 1120,
        }),
        PrerequisiteTree::CourseNode(CourseNode {
            subject_code: String::from("GNG"),
            catalog_code: 1106,
        }),
    ));

    let result = PrerequisiteParser::new().parse(&input).unwrap();

    assert_eq!(expected, result);
}

#[test]
fn basic_and_test() {
    let input = String::from("ITI 1120, GNG1106.");
    let expected = PrerequisiteTree::AndNode(LogicNode::new(
        PrerequisiteTree::CourseNode(CourseNode {
            subject_code: String::from("ITI"),
            catalog_code: 1120,
        }),
        PrerequisiteTree::CourseNode(CourseNode {
            subject_code: String::from("GNG"),
            catalog_code: 1106,
        }),
    ));

    let result = PrerequisiteParser::new().parse(&input).unwrap();

    assert_eq!(expected, result);
}

#[test]
fn nested_expr_test() {
    let input = String::from("MAT1341, (MAT2371 or MAT 2377).");

    let expected = PrerequisiteTree::AndNode(LogicNode::new(
        PrerequisiteTree::CourseNode(CourseNode {
            subject_code: String::from("MAT"),
            catalog_code: 1341,
        }),
        PrerequisiteTree::OrNode(LogicNode::new(
            PrerequisiteTree::CourseNode(CourseNode {
                subject_code: String::from("MAT"),
                catalog_code: 2371,
            }),
            PrerequisiteTree::CourseNode(CourseNode {
                subject_code: String::from("MAT"),
                catalog_code: 2377,
            }),
        )),
    ));

    assert_eq!(expected, PrerequisiteParser::new().parse(&input).unwrap());
}

#[test]
fn double_nested_expr_test() {
    let input = String::from("MAT 1341, ((MAT 2371, MAT 2375) or MAT 2377).");

    let expected = PrerequisiteTree::AndNode(LogicNode::new(
        PrerequisiteTree::CourseNode(CourseNode {
            subject_code: String::from("MAT"),
            catalog_code: 1341,
        }),
        PrerequisiteTree::OrNode(LogicNode::new(
            PrerequisiteTree::AndNode(LogicNode::new(
                PrerequisiteTree::CourseNode(CourseNode {
                    subject_code: String::from("MAT"),
                    catalog_code: 2371,
                }),
                PrerequisiteTree::CourseNode(CourseNode {
                    subject_code: String::from("MAT"),
                    catalog_code: 2375,
                }),
            )),
            PrerequisiteTree::CourseNode(CourseNode {
                subject_code: String::from("MAT"),
                catalog_code: 2377,
            }),
        )),
    ));

    assert_eq!(expected, PrerequisiteParser::new().parse(&input).unwrap());
}

#[test]
fn min_course_units_test() {
    let input = String::from("18 university units in CSI.");

    let expected = PrerequisiteTree::MinCreditNode(MinCreditNode {
        credits: 18,
        required_subjects: Some(vec!["CSI".to_string()]),
        required_levels: None,
    });

    assert_eq!(expected, PrerequisiteParser::new().parse(&input).unwrap());
}

#[test]
fn min_course_units_test2() {
    let input = String::from("18 university units in CSI or SEG at the 3000 or 4000 level.");

    let expected = PrerequisiteTree::MinCreditNode(MinCreditNode {
        credits: 18,
        required_subjects: Some(vec!["CSI".to_string(), "SEG".to_string()]),
        required_levels: Some(vec![3000, 4000]),
    });

    assert_eq!(expected, PrerequisiteParser::new().parse(&input).unwrap());
}

#[test]
fn course_and_min_credit_test() {
    let input = String::from("CSI 1111 and 18 course units in CSI or SEG at the 3000 level.");

    let expected = PrerequisiteTree::AndNode(LogicNode::new(
        PrerequisiteTree::CourseNode(CourseNode {
            catalog_code: 1111,
            subject_code: "CSI".to_string(),
        }),
        PrerequisiteTree::MinCreditNode(MinCreditNode {
            credits: 18,
            required_levels: Some(vec![3000]),
            required_subjects: Some(vec!["CSI".to_string(), "SEG".to_string()]),
        }),
    ));

    assert_eq!(PrerequisiteParser::new().parse(&input).unwrap(), expected)
}

#[test]
fn min_credit_expanded() {
    let input = String::from(
        "18 course units in Computer Science (CSI) or Software Engineering (SEG) at the 3000 level.",
    );

    let expected = PrerequisiteTree::MinCreditNode(MinCreditNode {
        credits: 18,
        required_levels: Some(vec![3000]),
        required_subjects: Some(vec!["CSI".to_string(), "SEG".to_string()]),
    });

    assert_eq!(PrerequisiteParser::new().parse(&input).unwrap(), expected);
}

#[test]
fn test() {
    let input = String::from("Prerequisite: ITI 1120.");

    let expected = PrerequisiteTree::CourseNode(CourseNode {
        catalog_code: 1120,
        subject_code: "ITI".to_string(),
    });

    assert_eq!(PrerequisiteParser::new().parse(&input).unwrap(), expected);
}

#[test]
fn trailing_period_is_optional() {
    let with_period = PrerequisiteParser::new().parse("CSI 1111.").unwrap();
    let without_period = PrerequisiteParser::new().parse("CSI 1111").unwrap();

    let expected = PrerequisiteTree::CourseNode(CourseNode {
        subject_code: "CSI".to_string(),
        catalog_code: 1111,
    });

    assert_eq!(with_period, expected);
    assert_eq!(without_period, expected);
    assert_eq!(with_period, without_period);
}

#[test]
fn malformed_text_is_rejected_with_offset() {
    let result = PrerequisiteParser::new().parse("CSI 1111 & MAT 1341.");
    let err = result.unwrap_err();
    assert!(err.offset <= 20);

    assert!(PrerequisiteParser::new().parse("CSI").is_err());
    assert!(PrerequisiteParser::new().parse("").is_err());
    assert!(PrerequisiteParser::new().parse("(CSI 1111").is_err());
}

#[test]
fn number_too_large_is_rejected() {
    assert!(PrerequisiteParser::new().parse("CSI 99999999999999999999.").is_err());
}
