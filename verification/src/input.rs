//! The input validator: a catalog-wide feasibility pre-check run once
//! before any term is produced.
use vstd::prelude::*;

use crate::config::SequenceConfig;
use crate::course::Course;
use crate::course::CourseView;
use crate::prerequisites::prereq_satisfied;
use crate::prerequisites::validate_prerequisites;
use crate::text::dec_digits;
use crate::text::u32_to_string;

verus! {

/// The message reported when a course's prerequisite tree cannot be
/// satisfied even with the whole catalog completed.
pub open spec fn prereq_error_message(subject: Seq<char>, catalog: u32) -> Seq<char> {
    "Prerequisite for course "@ + subject + " "@ + dec_digits(catalog as nat)
        + " can not be satisfied with the courses given"@
}

/// The message reported when a course is offered in no season but
/// Summer while Summer terms are excluded.
pub open spec fn summer_error_message(subject: Seq<char>, catalog: u32) -> Seq<char> {
    "Course "@ + subject + " "@ + dec_digits(catalog as nat) + " can only be taken in the summer"@
}

/// The error one course draws, if any: its prerequisite tree must be
/// satisfiable with the entire catalog treated as completed — a coarse
/// necessary check, not a proof of a valid ordering — and it must not be
/// a Summer-only course when Summer is excluded.
pub open spec fn spec_course_error(
    c: CourseView,
    catalog: Seq<CourseView>,
    include_summer: bool,
) -> Option<Seq<char>> {
    if !prereq_satisfied(c.prereq, catalog) {
        Some(prereq_error_message(c.subject, c.catalog))
    } else if !include_summer && c.offered.spec_summer_only() {
        Some(summer_error_message(c.subject, c.catalog))
    } else {
        None
    }
}

/// The first error the catalog draws at or after position `i`, if any.
pub open spec fn spec_validate_from(
    catalog: Seq<CourseView>,
    include_summer: bool,
    i: int,
) -> Option<Seq<char>>
    decreases catalog.len() - i,
{
    if i < 0 || i >= catalog.len() {
        None
    } else {
        match spec_course_error(catalog[i], catalog, include_summer) {
            Some(e) => Some(e),
            None => spec_validate_from(catalog, include_summer, i + 1),
        }
    }
}

/// The first error the whole catalog draws, if any.
pub open spec fn spec_validate(catalog: Seq<CourseView>, include_summer: bool) -> Option<
    Seq<char>,
> {
    spec_validate_from(catalog, include_summer, 0)
}

/// Builds the prerequisite error message for a course.
fn build_prereq_error(subject: &String, catalog: u32) -> (r: String)
    ensures
        r@ == prereq_error_message(subject@, catalog),
{
    let mut r: String = "Prerequisite for course ".to_owned();
    r.append(subject.as_str());
    r.append(" ");
    let code = u32_to_string(catalog);
    r.append(code.as_str());
    r.append(" can not be satisfied with the courses given");
    r
}

/// Builds the Summer-exclusivity error message for a course.
fn build_summer_error(subject: &String, catalog: u32) -> (r: String)
    ensures
        r@ == summer_error_message(subject@, catalog),
{
    let mut r: String = "Course ".to_owned();
    r.append(subject.as_str());
    r.append(" ");
    let code = u32_to_string(catalog);
    r.append(code.as_str());
    r.append(" can only be taken in the summer");
    r
}

/// Checks the whole catalog before scheduling: every course's
/// prerequisite tree must be satisfiable against the entire catalog
/// treated as completed, and no course may be offered only in Summer
/// when Summer terms are excluded. The first failure aborts the run
/// with a message naming the offending course.
pub fn validate_input(courses: &Vec<Course>, config: &SequenceConfig) -> (r: Result<(), String>)
    ensures
        (r is Ok) == (spec_validate(courses.deep_view(), config.include_summer) is None),
        r matches Err(e) ==> Some(e@) == spec_validate(courses.deep_view(), config.include_summer),
{
    let ghost catalog = courses.deep_view();
    let n = courses.len();
    let mut i: usize = 0;
    while i < n
        invariant
            0 <= i <= n,
            n == courses.len(),
            catalog == courses.deep_view(),
            spec_validate(catalog, config.include_summer) == spec_validate_from(
                catalog,
                config.include_summer,
                i as int,
            ),
        decreases n - i,
    {
        let course = &courses[i];
        assert(course.deep_view() == catalog[i as int]);
        if !validate_prerequisites(&course.prerequisites, courses) {
            return Err(build_prereq_error(&course.subject_code, course.catalog_code));
        }
        let off = course.terms_offered;
        let summer_only = off.summer && !off.fall && !off.winter;
        if !config.include_summer && summer_only {
            return Err(build_summer_error(&course.subject_code, course.catalog_code));
        }
        i += 1;
    }
    Ok(())
}

/// Law: under a configuration that excludes Summer, a catalog holding a
/// course offered in no season but Summer is always rejected; the
/// message of whichever failure comes first still names its own course.
pub proof fn lemma_summer_only_rejected(catalog: Seq<CourseView>, i: int)
    requires
        0 <= i < catalog.len(),
        catalog[i].offered.spec_summer_only(),
    ensures
        spec_validate(catalog, false) is Some,
{
    lemma_summer_only_rejected_from(catalog, i, 0);
}

/// Walking the catalog from any position at or before a Summer-only
/// course ends in an error.
proof fn lemma_summer_only_rejected_from(catalog: Seq<CourseView>, i: int, j: int)
    requires
        0 <= j <= i < catalog.len(),
        catalog[i].offered.spec_summer_only(),
    ensures
        spec_validate_from(catalog, false, j) is Some,
    decreases i - j,
{
    if j < i {
        lemma_summer_only_rejected_from(catalog, i, j + 1);
    }
}

} // verus!
