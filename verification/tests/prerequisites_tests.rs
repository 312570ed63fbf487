use usequence::course::Course;
use usequence::course::TermsOffered;
use usequence::prerequisite_tree::CourseNode;
use usequence::prerequisite_tree::LogicNode;
use usequence::prerequisite_tree::MinCreditNode;
use usequence::prerequisite_tree::PrerequisiteTree;
use usequence::prerequisites::evaluate_prerequisite_tree;
use usequence::prerequisites::satisfies_min_credits;
use usequence::prerequisites::validate_prerequisites;

#[test]
fn test_satisfies_min_credits() {
    let binding = Course {
        subject_code: String::from("MAT"),
        name: String::from("A math course"),
        catalog_code: 2132,
        prerequisites: None,
        terms_offered: TermsOffered { summer: false, fall: false, winter: false },
    };
    let binding2 = Course {
        subject_code: String::from("CSI"),
        name: String::from("a computing course"),
        catalog_code: 3110,
        prerequisites: None,
        terms_offered: TermsOffered { summer: false, fall: false, winter: false },
    };
    let courses_taken = vec![binding, binding2];

    assert!(
        satisfies_min_credits(6, &None, &None, &courses_taken),
        "Should return true when total credits meet the required credits"
    );

    assert!(
        satisfies_min_credits(3, &None, &Some(vec![String::from("CSI")]), &courses_taken),
        "Should return true when total credits meet the required credits and subject matches"
    );

    assert!(
        !satisfies_min_credits(6, &None, &Some(vec![String::from("CSI")]), &courses_taken),
        "Should return false when total credits do not meet the required credits because subject does not match"
    );

    assert!(
        satisfies_min_credits(6, &Some(vec![3000, 2000]), &None, &courses_taken),
        "Should return true when total credits meet the required credits and level matches"
    );

    assert!(
        !satisfies_min_credits(6, &Some(vec![3000]), &None, &courses_taken),
        "Should return false when total credits do not meet the required credits because level does not match"
    );
}

#[test]
fn test_evaluate_prerequisite_tree() {
    let binding = Course {
        subject_code: String::from("CSI"),
        name: String::from("A computing course"),
        catalog_code: 3110,
        prerequisites: None,
        terms_offered: TermsOffered { summer: false, fall: false, winter: false },
    };

    let binding2 = Course {
        subject_code: String::from("MAT"),
        name: String::from("A math course"),
        catalog_code: 2132,
        prerequisites: None,
        terms_offered: TermsOffered { summer: false, fall: false, winter: false },
    };

    let courses_taken = vec![binding, binding2];

    let tree = PrerequisiteTree::CourseNode(CourseNode {
        subject_code: String::from("CSI"),
        catalog_code: 3110,
    });

    assert!(
        evaluate_prerequisite_tree(&tree, &courses_taken),
        "Should return true when prerequisites are satisfied"
    );
}

#[test]
fn test_validate_prerequisites() {
    let binding = Course {
        subject_code: String::from("CSI"),
        name: String::from("Advanced computing"),
        catalog_code: 3110,
        prerequisites: None,
        terms_offered: TermsOffered { summer: false, fall: false, winter: false },
    };

    let binding2 = Course {
        subject_code: String::from("MAT"),
        name: String::from("Intro to Math"),
        catalog_code: 2132,
        prerequisites: None,
        terms_offered: TermsOffered { summer: false, fall: false, winter: false },
    };

    let courses_taken = vec![binding, binding2];

    let tree = Some(PrerequisiteTree::CourseNode(CourseNode {
        subject_code: String::from("CSI"),
        catalog_code: 3110,
    }));

    assert!(
        validate_prerequisites(&tree, &courses_taken),
        "Should return true when prerequisites are satisfied"
    );
}

#[test]
fn evaluate_follows_the_connectives() {
    let taken_a = Course {
        subject_code: String::from("CSI"),
        name: String::from("A computing course"),
        catalog_code: 1111,
        prerequisites: None,
        terms_offered: TermsOffered { summer: false, fall: false, winter: false },
    };
    let courses_taken = vec![taken_a];

    let in_set = PrerequisiteTree::CourseNode(CourseNode {
        subject_code: String::from("CSI"),
        catalog_code: 1111,
    });
    let not_in_set = PrerequisiteTree::CourseNode(CourseNode {
        subject_code: String::from("MAT"),
        catalog_code: 1341,
    });

    assert!(evaluate_prerequisite_tree(&in_set, &courses_taken));
    assert!(!evaluate_prerequisite_tree(&not_in_set, &courses_taken));

    let and_tree = PrerequisiteTree::AndNode(LogicNode::new(
        PrerequisiteTree::CourseNode(CourseNode {
            subject_code: String::from("CSI"),
            catalog_code: 1111,
        }),
        PrerequisiteTree::CourseNode(CourseNode {
            subject_code: String::from("MAT"),
            catalog_code: 1341,
        }),
    ));
    let or_tree = PrerequisiteTree::OrNode(LogicNode::new(
        PrerequisiteTree::CourseNode(CourseNode {
            subject_code: String::from("CSI"),
            catalog_code: 1111,
        }),
        PrerequisiteTree::CourseNode(CourseNode {
            subject_code: String::from("MAT"),
            catalog_code: 1341,
        }),
    ));

    // true and false; true or false
    assert!(!evaluate_prerequisite_tree(&and_tree, &courses_taken));
    assert!(evaluate_prerequisite_tree(&or_tree, &courses_taken));

    // an absent tree imposes no requirement
    assert!(validate_prerequisites(&None, &courses_taken));
}

#[test]
fn min_credits_is_monotone_under_completion() {
    let mat = Course {
        subject_code: String::from("MAT"),
        name: String::from("A math course"),
        catalog_code: 2132,
        prerequisites: None,
        terms_offered: TermsOffered { summer: false, fall: false, winter: false },
    };
    let csi = Course {
        subject_code: String::from("CSI"),
        name: String::from("A computing course"),
        catalog_code: 3110,
        prerequisites: None,
        terms_offered: TermsOffered { summer: false, fall: false, winter: false },
    };

    let mut taken = vec![mat, csi];
    assert!(satisfies_min_credits(6, &None, &None, &taken));

    // completing one more course never turns a satisfied clause unsatisfied
    taken.push(Course {
        subject_code: String::from("PHY"),
        name: String::from("A physics course"),
        catalog_code: 1321,
        prerequisites: None,
        terms_offered: TermsOffered { summer: false, fall: false, winter: false },
    });
    assert!(satisfies_min_credits(6, &None, &None, &taken));
}

#[test]
fn min_credit_tree_uses_level_buckets() {
    let taken = vec![
        Course {
            subject_code: String::from("CSI"),
            name: String::from("An advanced course"),
            catalog_code: 3110,
            prerequisites: None,
            terms_offered: TermsOffered { summer: false, fall: false, winter: false },
        },
        Course {
            subject_code: String::from("CSI"),
            name: String::from("Another advanced course"),
            catalog_code: 3120,
            prerequisites: None,
            terms_offered: TermsOffered { summer: false, fall: false, winter: false },
        },
    ];

    // 3110 and 3120 both sit in the 3000-level bucket: 2 courses at 3
    // credits each accumulate exactly 6 credits
    let satisfied = PrerequisiteTree::MinCreditNode(MinCreditNode {
        credits: 6,
        required_subjects: Some(vec![String::from("CSI")]),
        required_levels: Some(vec![3000]),
    });
    let unsatisfied = PrerequisiteTree::MinCreditNode(MinCreditNode {
        credits: 7,
        required_subjects: Some(vec![String::from("CSI")]),
        required_levels: Some(vec![3000]),
    });
    let wrong_level = PrerequisiteTree::MinCreditNode(MinCreditNode {
        credits: 6,
        required_subjects: Some(vec![String::from("CSI")]),
        required_levels: Some(vec![4000]),
    });

    assert!(evaluate_prerequisite_tree(&satisfied, &taken));
    assert!(!evaluate_prerequisite_tree(&unsatisfied, &taken));
    assert!(!evaluate_prerequisite_tree(&wrong_level, &taken));
}
