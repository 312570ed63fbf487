use usequence::course::Course;
use usequence::course::CourseInput;
use usequence::course::TermsOffered;
use usequence::prerequisite_tree::CourseNode;
use usequence::prerequisite_tree::LogicNode;
use usequence::prerequisite_tree::PrerequisiteTree;

#[test]
fn convert_input_to_course() {
    let input = CourseInput {
        subject: String::from("CSI"),
        name: String::from("Intro to computing"),
        catalog: 1111,
        prerequisites: Some(String::from("CSI 2110, CSI 2132.")),
        summer: true,
        fall: true,
        winter: true,
    };

    let expected = Course {
        subject_code: String::from("CSI"),
        name: String::from("Intro to computing"),
        catalog_code: 1111,
        prerequisites: Some(PrerequisiteTree::AndNode(LogicNode::new(
            PrerequisiteTree::CourseNode(CourseNode {
                catalog_code: 2110,
                subject_code: String::from("CSI"),
            }),
            PrerequisiteTree::CourseNode(CourseNode {
                catalog_code: 2132,
                subject_code: String::from("CSI"),
            }),
        ))),
        terms_offered: TermsOffered { winter: true, summer: true, fall: true },
    };

    assert_eq!(Course::new(input).unwrap(), expected);
}

#[test]
fn convert_input_to_course_no_prerequisites() {
    let input = CourseInput {
        subject: String::from("CSI"),
        name: String::from("Intro to computing"),
        catalog: 1111,
        prerequisites: None,
        summer: true,
        fall: true,
        winter: true,
    };

    let expected = Course {
        subject_code: String::from("CSI"),
        name: String::from("Intro to computing"),
        catalog_code: 1111,
        prerequisites: None,
        terms_offered: TermsOffered { winter: true, summer: true, fall: true },
    };

    assert_eq!(Course::new(input).unwrap(), expected);
}

#[test]
fn convert_input_bad_prerequisites_is_an_error() {
    let input = CourseInput {
        subject: String::from("CSI"),
        name: String::from("Intro to computing"),
        catalog: 1111,
        prerequisites: Some(String::from("no prerequisites listed here ???")),
        summer: true,
        fall: true,
        winter: true,
    };

    let result = Course::new(input);
    assert_eq!(result.unwrap_err(), "could not parse prerequisites".to_string());
}

#[test]
fn course_info_carries_the_identity() {
    let course = Course {
        subject_code: String::from("PHY"),
        name: String::from("A physics course"),
        catalog_code: 1321,
        prerequisites: None,
        terms_offered: TermsOffered { winter: true, summer: false, fall: true },
    };

    let info = course.info();
    assert_eq!(info.subject_code, "PHY".to_string());
    assert_eq!(info.name, "A physics course".to_string());
    assert_eq!(info.catalog_code, 1321);

    let converted = usequence::course::CourseInfo::from(course);
    assert_eq!(converted.subject_code, "PHY".to_string());
    assert_eq!(converted.name, "A physics course".to_string());
    assert_eq!(converted.catalog_code, 1321);
}
