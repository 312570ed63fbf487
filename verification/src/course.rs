//! Courses: the input record shape, the course entity, and its
//! simplified information view.
use vstd::prelude::*;

use crate::parser::spec_parse;
use crate::parser::PrerequisiteParser;
use crate::prerequisite_tree::PrerequisiteTree;
use crate::prerequisite_tree::TreeView;
use crate::term::Season;

verus! {

/// Which seasons a course is offered in; one entry for each of the
/// exactly three seasons.
#[derive(Debug, Clone, Copy, PartialEq, Eq, Structural)]
pub struct TermsOffered {
    pub summer: bool,
    pub fall: bool,
    pub winter: bool,
}

impl TermsOffered {
    /// Whether the course is offered during the given season.
    pub open spec fn spec_offered(self, season: Season) -> bool {
        match season {
            Season::Summer => self.summer,
            Season::Fall => self.fall,
            Season::Winter => self.winter,
        }
    }

    /// Looks the given season up; every season is present.
    pub fn offered(&self, season: Season) -> (b: bool)
        ensures
            b == self.spec_offered(season),
    {
        match season {
            Season::Summer => self.summer,
            Season::Fall => self.fall,
            Season::Winter => self.winter,
        }
    }

    /// Whether Summer is the only season the course is offered in.
    pub open spec fn spec_summer_only(self) -> bool {
        self.summer && !self.fall && !self.winter
    }
}

/// A model mapping one catalog row.
#[derive(Debug)]
pub struct CourseInput {
    pub subject: String,
    pub catalog: u32,
    pub name: String,
    pub prerequisites: Option<String>,
    pub winter: bool,
    pub summer: bool,
    pub fall: bool,
}

/// Mathematical model of a course.
pub ghost struct CourseView {
    pub subject: Seq<char>,
    pub name: Seq<char>,
    pub catalog: u32,
    pub prereq: Option<TreeView>,
    pub offered: TermsOffered,
}

/// A course of the catalog.
#[derive(Debug)]
pub struct Course {
    /// The subject code of the course
    pub subject_code: String,
    /// The name of the course
    pub name: String,
    /// The 4-digit course code
    pub catalog_code: u32,
    /// The prerequisite tree for the course
    pub prerequisites: Option<PrerequisiteTree>,
    /// The terms during which the course is offered
    pub terms_offered: TermsOffered,
}

impl DeepView for Course {
    type V = CourseView;

    open spec fn deep_view(&self) -> CourseView {
        CourseView {
            subject: self.subject_code@,
            name: self.name@,
            catalog: self.catalog_code,
            prereq: self.prerequisites.deep_view(),
            offered: self.terms_offered,
        }
    }
}

impl Clone for Course {
    fn clone(&self) -> (res: Self)
        ensures
            res.deep_view() == self.deep_view(),
    {
        Course {
            subject_code: self.subject_code.clone(),
            name: self.name.clone(),
            catalog_code: self.catalog_code,
            prerequisites: match &self.prerequisites {
                Some(t) => Some(t.clone()),
                None => None,
            },
            terms_offered: self.terms_offered,
        }
    }
}

impl PartialEq for Course {
    fn eq(&self, other: &Self) -> (r: bool) {
        self.subject_code == other.subject_code && self.name == other.name
            && self.catalog_code == other.catalog_code && match (
            &self.prerequisites,
            &other.prerequisites,
        ) {
            (Some(a), Some(b)) => a == b,
            (None, None) => true,
            _ => false,
        } && self.terms_offered == other.terms_offered
    }
}

impl vstd::std_specs::cmp::PartialEqSpecImpl for Course {
    open spec fn obeys_eq_spec() -> bool {
        true
    }

    open spec fn eq_spec(&self, other: &Self) -> bool {
        self.deep_view() == other.deep_view()
    }
}

/// A simplified course model.
#[derive(Debug)]
pub struct CourseInfo {
    pub subject_code: String,
    pub name: String,
    pub catalog_code: u32,
}

/// The course a catalog row describes, given the tree its prerequisite
/// text parses to.
pub open spec fn spec_course_from_input(input: CourseInput, prereq: Option<TreeView>) -> CourseView {
    CourseView {
        subject: input.subject@,
        name: input.name@,
        catalog: input.catalog,
        prereq,
        offered: TermsOffered { summer: input.summer, fall: input.fall, winter: input.winter },
    }
}

impl Course {
    /// Builds a course from one catalog row: its prerequisite text, when
    /// present, is parsed into a tree; a text that does not parse
    /// refuses the row — it is never taken as "no prerequisite".
    pub fn new(input: CourseInput) -> (r: Result<Self, String>)
        ensures
            (r is Ok) == (match input.prerequisites {
                Some(p) => spec_parse(p@) is Some,
                None => true,
            }),
            r matches Ok(c) ==> c.deep_view() == spec_course_from_input(
                input,
                match input.prerequisites {
                    Some(p) => Some(spec_parse(p@)->Some_0),
                    None => None,
                },
            ),
            r matches Err(e) ==> e@ == "could not parse prerequisites"@,
    {
        let prerequisites = match &input.prerequisites {
            Some(prerequisites_str) => {
                match PrerequisiteParser::new().parse(prerequisites_str.as_str()) {
                    Ok(tree) => Some(tree),
                    Err(_) => {
                        let msg: String = "could not parse prerequisites".to_owned();
                        return Err(msg);
                    },
                }
            },
            None => None,
        };
        Ok(
            Self {
                subject_code: input.subject,
                name: input.name,
                catalog_code: input.catalog,
                prerequisites,
                terms_offered: TermsOffered {
                    summer: input.summer,
                    fall: input.fall,
                    winter: input.winter,
                },
            },
        )
    }

    /// The simplified information of the course: subject, name, code.
    pub fn info(&self) -> (r: CourseInfo)
        ensures
            r.subject_code@ == self.subject_code@,
            r.name@ == self.name@,
            r.catalog_code == self.catalog_code,
    {
        CourseInfo {
            subject_code: self.subject_code.clone(),
            name: self.name.clone(),
            catalog_code: self.catalog_code,
        }
    }
}

impl From<Course> for CourseInfo {
    fn from(course: Course) -> (r: CourseInfo) {
        CourseInfo {
            subject_code: course.subject_code,
            name: course.name,
            catalog_code: course.catalog_code,
        }
    }
}

impl vstd::std_specs::convert::FromSpecImpl<Course> for CourseInfo {
    open spec fn obeys_from_spec() -> bool {
        true
    }

    open spec fn from_spec(course: Course) -> CourseInfo {
        CourseInfo {
            subject_code: course.subject_code,
            name: course.name,
            catalog_code: course.catalog_code,
        }
    }
}

} // verus!
