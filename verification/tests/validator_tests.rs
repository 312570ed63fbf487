use usequence::config::SequenceConfig;
use usequence::course::Course;
use usequence::course::TermsOffered;
use usequence::input::validate_input;
use usequence::prerequisite_tree::CourseNode;
use usequence::prerequisite_tree::PrerequisiteTree;
use usequence::term::Season;

#[test]
fn should_be_ok_if_input_is_valid() {
    let courses = vec![
        Course {
            subject_code: "CSI".to_string(),
            name: String::from("A computing course"),
            catalog_code: 1100,
            prerequisites: None,
            terms_offered: TermsOffered { summer: false, fall: true, winter: false },
        },
        Course {
            subject_code: "CSI".to_string(),
            name: String::from("A computing course"),
            catalog_code: 1200,
            prerequisites: Some(PrerequisiteTree::CourseNode(CourseNode {
                subject_code: "CSI".to_string(),
                catalog_code: 1100,
            })),
            terms_offered: TermsOffered { summer: false, fall: false, winter: true },
        },
    ];

    let config = SequenceConfig {
        include_summer: true,
        max_courses_per_term: 5,
        starting_semester: Season::Fall,
        starting_year: 2023,
    };

    let result = validate_input(&courses, &config);
    assert!(result.is_ok());
}

#[test]
fn should_return_error_if_prerequisites_cannot_be_satisfied() {
    let courses = vec![
        Course {
            subject_code: "CSI".to_string(),
            name: String::from("A computing course"),
            catalog_code: 1100,
            prerequisites: None,
            terms_offered: TermsOffered { summer: false, fall: true, winter: false },
        },
        Course {
            subject_code: "CSI".to_string(),
            name: String::from("A computing course"),
            catalog_code: 1300,
            prerequisites: Some(PrerequisiteTree::CourseNode(CourseNode {
                subject_code: "CSI".to_string(),
                catalog_code: 1200,
            })),
            terms_offered: TermsOffered { summer: false, fall: false, winter: true },
        },
    ];
    let config = SequenceConfig {
        include_summer: true,
        max_courses_per_term: 5,
        starting_semester: Season::Fall,
        starting_year: 2023,
    };

    let result = validate_input(&courses, &config);
    assert!(result.is_err());
    assert_eq!(
        result.unwrap_err(),
        "Prerequisite for course CSI 1300 can not be satisfied with the courses given".to_string()
    );
}

#[test]
fn should_return_error_if_course_only_offered_in_summer_but_summer_not_included() {
    let courses = vec![
        Course {
            subject_code: "CSI".to_string(),
            name: String::from("A computing course"),
            catalog_code: 1100,
            prerequisites: None,
            terms_offered: TermsOffered { summer: true, fall: false, winter: false },
        },
        Course {
            subject_code: "CSI".to_string(),
            name: String::from("A computing course"),
            catalog_code: 1300,
            prerequisites: Some(PrerequisiteTree::CourseNode(CourseNode {
                subject_code: "CSI".to_string(),
                catalog_code: 1200,
            })),
            terms_offered: TermsOffered { summer: false, fall: false, winter: true },
        },
    ];
    let config = SequenceConfig {
        include_summer: false,
        max_courses_per_term: 5,
        starting_semester: Season::Fall,
        starting_year: 2023,
    };

    let result = validate_input(&courses, &config);
    assert!(result.is_err());
    assert_eq!(
        result.unwrap_err(),
        "Course CSI 1100 can only be taken in the summer".to_string()
    );
}

#[test]
fn summer_only_course_is_accepted_when_summer_is_included() {
    let courses = vec![Course {
        subject_code: "CSI".to_string(),
        name: String::from("A computing course"),
        catalog_code: 1100,
        prerequisites: None,
        terms_offered: TermsOffered { summer: true, fall: false, winter: false },
    }];
    let config = SequenceConfig {
        include_summer: true,
        max_courses_per_term: 5,
        starting_semester: Season::Fall,
        starting_year: 2023,
    };

    assert!(validate_input(&courses, &config).is_ok());
}
