use usequence::config::SequenceConfig;
use usequence::course::Course;
use usequence::course::TermsOffered;
use usequence::prerequisite_tree::CourseNode;
use usequence::prerequisite_tree::LogicNode;
use usequence::prerequisite_tree::PrerequisiteTree;
use usequence::sequence::sequence_courses;
use usequence::term::Season;
use usequence::Sequence;
use usequence::Sequencer;

fn demo_catalog() -> Vec<Course> {
    vec![
        Course {
            subject_code: "CSI".to_string(),
            name: String::from("A computing course"),
            catalog_code: 1111,
            prerequisites: None,
            terms_offered: TermsOffered { winter: false, summer: true, fall: true },
        },
        Course {
            subject_code: "CSI".to_string(),
            name: String::from("A computing course"),
            catalog_code: 1112,
            prerequisites: Some(PrerequisiteTree::CourseNode(CourseNode {
                subject_code: "CSI".to_string(),
                catalog_code: 1111,
            })),
            terms_offered: TermsOffered { winter: true, summer: true, fall: true },
        },
        Course {
            subject_code: "CSI".to_string(),
            name: String::from("A computing course"),
            catalog_code: 1113,
            prerequisites: Some(PrerequisiteTree::CourseNode(CourseNode {
                subject_code: "MAT".to_string(),
                catalog_code: 1111,
            })),
            terms_offered: TermsOffered { winter: true, summer: true, fall: true },
        },
        Course {
            subject_code: "MAT".to_string(),
            name: String::from("A math course"),
            catalog_code: 1111,
            prerequisites: None,
            terms_offered: TermsOffered { winter: false, summer: true, fall: true },
        },
        Course {
            subject_code: "CSI".to_string(),
            name: String::from("A computing course"),
            catalog_code: 2111,
            prerequisites: Some(PrerequisiteTree::AndNode(LogicNode::new(
                PrerequisiteTree::CourseNode(CourseNode {
                    subject_code: "CSI".to_string(),
                    catalog_code: 1112,
                }),
                PrerequisiteTree::CourseNode(CourseNode {
                    subject_code: "CSI".to_string(),
                    catalog_code: 1113,
                }),
            ))),
            terms_offered: TermsOffered { winter: false, summer: true, fall: true },
        },
        Course {
            subject_code: "PHY".to_string(),
            name: String::from("A physics course"),
            catalog_code: 1111,
            prerequisites: None,
            terms_offered: TermsOffered { winter: true, summer: false, fall: true },
        },
    ]
}

#[test]
fn lib_sequence_courses_test() {
    let courses = demo_catalog();

    let result = Sequencer::new(false, Season::Fall, 2023, 3)
        .sequence(courses)
        .unwrap();

    assert_eq!(result.len(), 3);
}

#[test]
fn sequence_sequence_courses_test() {
    let courses = demo_catalog();

    let result = sequence_courses(
        courses,
        SequenceConfig {
            include_summer: false,
            max_courses_per_term: 3,
            starting_semester: Season::Fall,
            starting_year: 2023,
        },
    )
    .unwrap();

    assert_eq!(result.len(), 3);
}

#[test]
fn scheduling_follows_the_greedy_policy_exactly() {
    // CSI1111: Fall and Summer only; MAT1111: Summer and Fall;
    // CSI1112: requires CSI1111, all terms; PHY1111: Winter and Fall.
    let catalog = vec![
        Course {
            subject_code: "CSI".to_string(),
            name: String::from("A computing course"),
            catalog_code: 1111,
            prerequisites: None,
            terms_offered: TermsOffered { summer: true, fall: true, winter: false },
        },
        Course {
            subject_code: "MAT".to_string(),
            name: String::from("A math course"),
            catalog_code: 1111,
            prerequisites: None,
            terms_offered: TermsOffered { summer: true, fall: true, winter: false },
        },
        Course {
            subject_code: "CSI".to_string(),
            name: String::from("A computing course"),
            catalog_code: 1112,
            prerequisites: Some(PrerequisiteTree::CourseNode(CourseNode {
                subject_code: "CSI".to_string(),
                catalog_code: 1111,
            })),
            terms_offered: TermsOffered { summer: true, fall: true, winter: true },
        },
        Course {
            subject_code: "PHY".to_string(),
            name: String::from("A physics course"),
            catalog_code: 1111,
            prerequisites: None,
            terms_offered: TermsOffered { summer: false, fall: true, winter: true },
        },
    ];

    let config = SequenceConfig {
        include_summer: false,
        starting_semester: Season::Fall,
        starting_year: 2023,
        max_courses_per_term: 3,
    };

    let terms = sequence_courses(catalog, config).unwrap();

    assert_eq!(terms.len(), 2);

    assert_eq!(terms[0].season(), Season::Fall);
    assert_eq!(terms[0].year(), 2023);
    let first: Vec<(String, u32)> = terms[0]
        .courses
        .iter()
        .map(|c| (c.subject_code.clone(), c.catalog_code))
        .collect();
    assert_eq!(
        first,
        vec![
            ("CSI".to_string(), 1111),
            ("MAT".to_string(), 1111),
            ("PHY".to_string(), 1111),
        ]
    );

    assert_eq!(terms[1].season(), Season::Winter);
    assert_eq!(terms[1].year(), 2024);
    let second: Vec<(String, u32)> = terms[1]
        .courses
        .iter()
        .map(|c| (c.subject_code.clone(), c.catalog_code))
        .collect();
    assert_eq!(second, vec![("CSI".to_string(), 1112)]);
}

#[test]
fn identical_input_yields_identical_output() {
    let config = SequenceConfig {
        include_summer: false,
        starting_semester: Season::Fall,
        starting_year: 2023,
        max_courses_per_term: 3,
    };

    let first = sequence_courses(demo_catalog(), config).unwrap();
    let second = sequence_courses(demo_catalog(), config).unwrap();

    assert_eq!(first.len(), second.len());
    for (a, b) in first.iter().zip(second.iter()) {
        assert_eq!(a.season(), b.season());
        assert_eq!(a.year(), b.year());
        assert_eq!(a.courses, b.courses);
    }
}

#[test]
fn cyclic_prerequisites_stall_explicitly() {
    // each course requires the other: the coarse validation passes, but
    // no term can ever pick a course
    let catalog = vec![
        Course {
            subject_code: "CSI".to_string(),
            name: String::from("A computing course"),
            catalog_code: 1111,
            prerequisites: Some(PrerequisiteTree::CourseNode(CourseNode {
                subject_code: "CSI".to_string(),
                catalog_code: 1112,
            })),
            terms_offered: TermsOffered { summer: true, fall: true, winter: true },
        },
        Course {
            subject_code: "CSI".to_string(),
            name: String::from("A computing course"),
            catalog_code: 1112,
            prerequisites: Some(PrerequisiteTree::CourseNode(CourseNode {
                subject_code: "CSI".to_string(),
                catalog_code: 1111,
            })),
            terms_offered: TermsOffered { summer: true, fall: true, winter: true },
        },
    ];

    let result = Sequencer::new(false, Season::Fall, 2023, 3).sequence(catalog);
    assert_eq!(result.unwrap_err(), "cannot complete schedule".to_string());
}

#[test]
fn empty_catalog_yields_no_terms() {
    let result = Sequencer::new(true, Season::Summer, 2023, 1)
        .sequence(Vec::new())
        .unwrap();
    assert_eq!(result.len(), 0);
}

#[test]
fn no_term_exceeds_capacity_and_conservation_holds() {
    let catalog = demo_catalog();
    let total = catalog.len();
    let mut expected: Vec<(String, u32)> = catalog
        .iter()
        .map(|c| (c.subject_code.clone(), c.catalog_code))
        .collect();

    let terms = sequence_courses(
        catalog,
        SequenceConfig {
            include_summer: false,
            starting_semester: Season::Fall,
            starting_year: 2023,
            max_courses_per_term: 2,
        },
    )
    .unwrap();

    let mut seen: Vec<(String, u32)> = Vec::new();
    for term in &terms {
        assert!(term.courses.len() <= 2);
        for c in &term.courses {
            assert!(c.terms_offered.offered(term.season()));
            seen.push((c.subject_code.clone(), c.catalog_code));
        }
    }
    assert_eq!(seen.len(), total);
    expected.sort();
    seen.sort();
    assert_eq!(seen, expected);
}

#[test]
fn season_cycle_skips_summer_unless_included() {
    assert_eq!(Season::Summer.next(true), Season::Fall);
    assert_eq!(Season::Fall.next(true), Season::Winter);
    assert_eq!(Season::Winter.next(true), Season::Summer);
    assert_eq!(Season::Winter.next(false), Season::Fall);
    assert_eq!(Season::Summer.next(false), Season::Fall);
    assert_eq!(Season::Fall.next(false), Season::Winter);
}
