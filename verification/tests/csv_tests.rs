use usequence::course::Course;
use usequence::course::TermsOffered;
use usequence::csv::parse_csv_to_courses;
use usequence::prerequisite_tree::CourseNode;
use usequence::prerequisite_tree::LogicNode;
use usequence::prerequisite_tree::PrerequisiteTree;

#[test]
fn parse_csv_test() {
    let expected = vec![Course {
        subject_code: "CSI".to_string(),
        name: String::from("A computing course"),
        catalog_code: 1111,
        prerequisites: Some(PrerequisiteTree::CourseNode(CourseNode {
            subject_code: "CSI".to_string(),
            catalog_code: 1112,
        })),
        terms_offered: TermsOffered { winter: true, summer: true, fall: false },
    }];

    let csv = "Subject,Catalog,Name,Prerequisites,Winter,Summer,Fall\nCSI,1111,A computing course,CSI 1112.,true,true,false";

    let result = parse_csv_to_courses(csv);

    assert_eq!(result.unwrap(), expected);
}

#[test]
fn parse_csv_quoted_prerequisites() {
    let csv = "Subject,Catalog,Name,Prerequisites,Winter,Summer,Fall\nCSI,2110,Data structures,\"CSI 1111, MAT 1341.\",true,FALSE,True";

    let expected = vec![Course {
        subject_code: "CSI".to_string(),
        name: String::from("Data structures"),
        catalog_code: 2110,
        prerequisites: Some(PrerequisiteTree::AndNode(LogicNode::new(
            PrerequisiteTree::CourseNode(CourseNode {
                subject_code: "CSI".to_string(),
                catalog_code: 1111,
            }),
            PrerequisiteTree::CourseNode(CourseNode {
                subject_code: "MAT".to_string(),
                catalog_code: 1341,
            }),
        ))),
        terms_offered: TermsOffered { winter: true, summer: false, fall: true },
    }];

    assert_eq!(parse_csv_to_courses(csv).unwrap(), expected);
}

#[test]
fn parse_csv_empty_text_holds_no_courses() {
    assert_eq!(parse_csv_to_courses("").unwrap(), Vec::<Course>::new());
}

#[test]
fn parse_csv_bad_boolean_is_an_error() {
    let csv = "Subject,Catalog,Name,Prerequisites,Winter,Summer,Fall\nCSI,1111,A computing course,,yes,true,false";
    assert!(parse_csv_to_courses(csv).is_err());
}

#[test]
fn parse_csv_missing_column_is_an_error() {
    let csv = "Subject,Catalog,Name,Winter,Summer,Fall\nCSI,1111,A computing course,true,true,false";
    assert!(parse_csv_to_courses(csv).is_err());
}

#[test]
fn parse_csv_bad_catalog_code_is_an_error() {
    let csv = "Subject,Catalog,Name,Prerequisites,Winter,Summer,Fall\nCSI,11x1,A computing course,,true,true,false";
    assert!(parse_csv_to_courses(csv).is_err());
}
