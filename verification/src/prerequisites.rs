//! The prerequisite evaluator: decides whether a prerequisite tree is
//! satisfied by a set of already-completed courses.
use vstd::prelude::*;

use crate::course::Course;
use crate::course::CourseView;
use crate::prerequisite_tree::PrerequisiteTree;
use crate::prerequisite_tree::TreeView;

verus! {

/// The credit weight each completed course contributes.
pub const CREDITS_PER_COURSE: u32 = 3;

/// The level bucket of a catalog code: its thousands digit times 1000.
pub open spec fn course_level(catalog: u32) -> u32 {
    (((catalog / 1000) % 10) * 1000) as u32
}

/// Whether the completed set contains exactly the referenced course.
pub open spec fn contains_course(taken: Seq<CourseView>, subject: Seq<char>, catalog: u32) -> bool {
    exists|i: int|
        0 <= i < taken.len() && taken[i].subject == subject && taken[i].catalog == catalog
}

/// Whether a completed course passes the subject and level filters of a
/// minimum-credit clause; an absent filter passes everything.
pub open spec fn credit_matches(
    c: CourseView,
    subjects: Option<Seq<Seq<char>>>,
    levels: Option<Seq<u32>>,
) -> bool {
    &&& match subjects {
        None => true,
        Some(s) => s.contains(c.subject),
    }
    &&& match levels {
        None => true,
        Some(l) => l.contains(course_level(c.catalog)),
    }
}

/// How many completed courses pass the filters.
pub open spec fn matching_count(
    taken: Seq<CourseView>,
    subjects: Option<Seq<Seq<char>>>,
    levels: Option<Seq<u32>>,
) -> nat
    decreases taken.len(),
{
    if taken.len() == 0 {
        0
    } else {
        matching_count(taken.drop_last(), subjects, levels) + if credit_matches(
            taken.last(),
            subjects,
            levels,
        ) {
            1nat
        } else {
            0nat
        }
    }
}

/// Whether enough matching credits have been accumulated: each matching
/// course weighs `CREDITS_PER_COURSE` credits.
pub open spec fn min_credits_satisfied(
    credits: u32,
    levels: Option<Seq<u32>>,
    subjects: Option<Seq<Seq<char>>>,
    taken: Seq<CourseView>,
) -> bool {
    CREDITS_PER_COURSE * matching_count(taken, subjects, levels) >= credits
}

/// Whether a prerequisite tree is satisfied by the completed courses.
pub open spec fn tree_satisfied(t: TreeView, taken: Seq<CourseView>) -> bool
    decreases t,
{
    match t {
        TreeView::Course { subject, catalog } => contains_course(taken, subject, catalog),
        TreeView::And(l, r) => tree_satisfied(*l, taken) && tree_satisfied(*r, taken),
        TreeView::Or(l, r) => tree_satisfied(*l, taken) || tree_satisfied(*r, taken),
        TreeView::MinCredit { credits, subjects, levels } => min_credits_satisfied(
            credits,
            levels,
            subjects,
            taken,
        ),
    }
}

/// Whether an optional prerequisite tree is satisfied; an absent tree
/// imposes no requirement.
pub open spec fn prereq_satisfied(p: Option<TreeView>, taken: Seq<CourseView>) -> bool {
    match p {
        None => true,
        Some(t) => tree_satisfied(t, taken),
    }
}

/// Counting matches over one more completed course adds that course's
/// own contribution and nothing else.
proof fn lemma_matching_count_take_step(
    taken: Seq<CourseView>,
    i: int,
    subjects: Option<Seq<Seq<char>>>,
    levels: Option<Seq<u32>>,
)
    requires
        0 <= i < taken.len(),
    ensures
        matching_count(taken.take(i + 1), subjects, levels) == matching_count(
            taken.take(i),
            subjects,
            levels,
        ) + if credit_matches(taken[i], subjects, levels) {
            1nat
        } else {
            0nat
        },
{
    assert(taken.take(i + 1).drop_last() =~= taken.take(i));
    assert(taken.take(i + 1).last() == taken[i]);
}

/// Taking a longer prefix never lowers the number of matches.
proof fn lemma_matching_count_take_monotone(
    taken: Seq<CourseView>,
    i: int,
    k: int,
    subjects: Option<Seq<Seq<char>>>,
    levels: Option<Seq<u32>>,
)
    requires
        0 <= i <= k <= taken.len(),
    ensures
        matching_count(taken.take(k), subjects, levels) >= matching_count(
            taken.take(i),
            subjects,
            levels,
        ),
    decreases k - i,
{
    if i < k {
        lemma_matching_count_take_step(taken, k - 1, subjects, levels);
        lemma_matching_count_take_monotone(taken, i, k - 1, subjects, levels);
    }
}

/// Whether the given course reference is exactly present among the
/// completed courses.
fn taken_contains_course(courses_taken: &Vec<Course>, subject: &String, catalog: u32) -> (r: bool)
    ensures
        r == contains_course(courses_taken.deep_view(), subject@, catalog),
{
    let n = courses_taken.len();
    let mut i: usize = 0;
    while i < n
        invariant
            0 <= i <= n,
            n == courses_taken.len(),
            forall|j: int|
                0 <= j < i ==> !(courses_taken.deep_view()[j].subject == subject@
                    && courses_taken.deep_view()[j].catalog == catalog),
        decreases n - i,
    {
        let c = &courses_taken[i];
        if c.subject_code == *subject && c.catalog_code == catalog {
            assert(courses_taken.deep_view()[i as int].subject == subject@);
            return true;
        }
        i += 1;
    }
    false
}

/// Whether the course passes the filters of a minimum-credit clause.
fn course_credit_matches(
    course: &Course,
    required_subjects: &Option<Vec<String>>,
    required_levels: &Option<Vec<u32>>,
) -> (r: bool)
    ensures
        r == credit_matches(
            course.deep_view(),
            required_subjects.deep_view(),
            required_levels.deep_view(),
        ),
{
    let subject_matches = match required_subjects {
        None => true,
        Some(subjects) => {
            let n = subjects.len();
            let mut i: usize = 0;
            let mut found = false;
            while i < n
                invariant
                    0 <= i <= n,
                    n == subjects.len(),
                    found == exists|j: int| 0 <= j < i && subjects.deep_view()[j] == course.subject_code@,
                decreases n - i,
            {
                if subjects[i] == course.subject_code {
                    assert(subjects.deep_view()[i as int] == course.subject_code@);
                    found = true;
                }
                i += 1;
            }
            assert(found == subjects.deep_view().contains(course.subject_code@));
            found
        },
    };
    let level = ((course.catalog_code / 1000) % 10) * 1000;
    assert(level == course_level(course.catalog_code));
    let level_matches = match required_levels {
        None => true,
        Some(levels) => {
            let n = levels.len();
            let mut i: usize = 0;
            let mut found = false;
            while i < n
                invariant
                    0 <= i <= n,
                    n == levels.len(),
                    found == exists|j: int| 0 <= j < i && levels@[j] == level,
                decreases n - i,
            {
                if levels[i] == level {
                    found = true;
                }
                i += 1;
            }
            assert(levels.deep_view() =~= levels@);
            assert(found == levels.deep_view().contains(level));
            found
        },
    };
    subject_matches && level_matches
}

/// Whether enough completed courses match the subject and level filters
/// to accumulate the required credits, at `CREDITS_PER_COURSE` credits
/// per matching course.
pub fn satisfies_min_credits(
    credits_required: u32,
    required_levels: &Option<Vec<u32>>,
    required_subjects: &Option<Vec<String>>,
    courses_taken: &Vec<Course>,
) -> (r: bool)
    ensures
        r == min_credits_satisfied(
            credits_required,
            required_levels.deep_view(),
            required_subjects.deep_view(),
            courses_taken.deep_view(),
        ),
{
    let ghost subjects = required_subjects.deep_view();
    let ghost levels = required_levels.deep_view();
    let ghost taken = courses_taken.deep_view();
    // the number of matching courses at which the requirement is met
    let needed: u64 = (credits_required as u64 + 2) / 3;
    let n = courses_taken.len();
    let mut count: u64 = 0;
    let mut i: usize = 0;
    while i < n
        invariant
            0 <= i <= n,
            n == courses_taken.len(),
            taken == courses_taken.deep_view(),
            subjects == required_subjects.deep_view(),
            levels == required_levels.deep_view(),
            needed == (credits_required as int + 2) / 3,
            count <= needed,
            count == if matching_count(taken.take(i as int), subjects, levels) <= needed {
                matching_count(taken.take(i as int), subjects, levels)
            } else {
                needed as nat
            },
        decreases n - i,
    {
        if count == needed {
            proof {
                // enough matches already: the full count is no smaller
                lemma_matching_count_take_monotone(taken, i as int, n as int, subjects, levels);
                assert(taken.take(n as int) =~= taken);
                assert(3 * matching_count(taken, subjects, levels) >= 3 * needed);
                assert(3 * needed >= credits_required);
            }
            return true;
        }
        let matches = course_credit_matches(&courses_taken[i], required_subjects, required_levels);
        proof {
            lemma_matching_count_take_step(taken, i as int, subjects, levels);
        }
        if matches {
            count += 1;
        }
        i += 1;
    }
    proof {
        assert(taken.take(n as int) =~= taken);
    }
    if count == needed {
        proof {
            assert(3 * matching_count(taken, subjects, levels) >= 3 * needed);
            assert(3 * needed >= credits_required);
        }
        true
    } else {
        proof {
            let m = matching_count(taken, subjects, levels);
            assert(m < needed);
            assert(3 * m <= 3 * (needed - 1));
            assert(3 * needed <= credits_required + 2);
        }
        false
    }
}

/// Whether the prerequisite tree is satisfied by the completed courses.
pub fn evaluate_prerequisite_tree(tree: &PrerequisiteTree, courses_taken: &Vec<Course>) -> (r: bool)
    ensures
        r == tree_satisfied(tree.deep_view(), courses_taken.deep_view()),
    decreases *tree,
{
    match tree {
        PrerequisiteTree::CourseNode(course_node) => taken_contains_course(
            courses_taken,
            &course_node.subject_code,
            course_node.catalog_code,
        ),
        PrerequisiteTree::AndNode(logic_node) => {
            evaluate_prerequisite_tree(&logic_node.left, courses_taken)
                && evaluate_prerequisite_tree(&logic_node.right, courses_taken)
        },
        PrerequisiteTree::OrNode(logic_node) => {
            evaluate_prerequisite_tree(&logic_node.left, courses_taken)
                || evaluate_prerequisite_tree(&logic_node.right, courses_taken)
        },
        PrerequisiteTree::MinCreditNode(min_credit_node) => satisfies_min_credits(
            min_credit_node.credits,
            &min_credit_node.required_levels,
            &min_credit_node.required_subjects,
            courses_taken,
        ),
    }
}

/// Whether an optional prerequisite tree is satisfied; an absent tree is
/// always satisfied.
pub fn validate_prerequisites(
    prerequisites: &Option<PrerequisiteTree>,
    courses_taken: &Vec<Course>,
) -> (r: bool)
    ensures
        r == prereq_satisfied(prerequisites.deep_view(), courses_taken.deep_view()),
{
    match prerequisites {
        Some(prerequisites) => evaluate_prerequisite_tree(prerequisites, courses_taken),
        None => true,
    }
}

/// Law: evaluating a conjunction is the conjunction of the evaluations,
/// a disjunction the disjunction, and a course reference is membership
/// of that course in the completed set.
pub proof fn lemma_tree_satisfied_connectives(
    a: TreeView,
    b: TreeView,
    subject: Seq<char>,
    catalog: u32,
    taken: Seq<CourseView>,
)
    ensures
        tree_satisfied(TreeView::And(Box::new(a), Box::new(b)), taken) == (tree_satisfied(a, taken)
            && tree_satisfied(b, taken)),
        tree_satisfied(TreeView::Or(Box::new(a), Box::new(b)), taken) == (tree_satisfied(a, taken)
            || tree_satisfied(b, taken)),
        tree_satisfied(TreeView::Course { subject, catalog }, taken) == contains_course(
            taken,
            subject,
            catalog,
        ),
{
}

/// Law: minimum-credit satisfaction is monotone — completing one more
/// course never turns a satisfied clause unsatisfied.
pub proof fn lemma_min_credits_monotone(
    credits: u32,
    levels: Option<Seq<u32>>,
    subjects: Option<Seq<Seq<char>>>,
    taken: Seq<CourseView>,
    extra: CourseView,
)
    requires
        min_credits_satisfied(credits, levels, subjects, taken),
    ensures
        min_credits_satisfied(credits, levels, subjects, taken.push(extra)),
{
    assert(taken.push(extra).drop_last() =~= taken);
    assert(taken.push(extra).last() == extra);
    assert(matching_count(taken.push(extra), subjects, levels) >= matching_count(
        taken,
        subjects,
        levels,
    ));
}

} // verus!
