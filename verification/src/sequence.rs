//! The term sequencer: a deterministic greedy allocator that assigns
//! courses to successive terms under prerequisite, availability, and
//! capacity constraints.
use vstd::prelude::*;

use vstd::multiset::Multiset;

use crate::config::SequenceConfig;
use crate::course::Course;
use crate::course::CourseView;
use crate::prerequisites::prereq_satisfied;
use crate::prerequisites::validate_prerequisites;
use crate::term::Season;
use crate::term::Term;
use crate::term::TermView;

verus! {

/// Whether a course can be picked now: its prerequisite tree is
/// satisfied by the courses already taken and it is offered this season.
pub open spec fn eligible(c: CourseView, taken: Seq<CourseView>, season: Season) -> bool {
    prereq_satisfied(c.prereq, taken) && c.offered.spec_offered(season)
}

/// The index of the first eligible course of the remaining list, if any.
pub open spec fn first_eligible(
    remaining: Seq<CourseView>,
    taken: Seq<CourseView>,
    season: Season,
) -> Option<int>
    decreases remaining.len(),
{
    if remaining.len() == 0 {
        None
    } else if eligible(remaining[0], taken, season) {
        Some(0)
    } else {
        match first_eligible(remaining.drop_first(), taken, season) {
            Some(j) => Some(j + 1),
            None => None,
        }
    }
}

/// What `first_eligible` returns: the smallest eligible index, or
/// nothing when no course is eligible.
pub proof fn lemma_first_eligible(remaining: Seq<CourseView>, taken: Seq<CourseView>, season: Season)
    ensures
        match first_eligible(remaining, taken, season) {
            Some(i) => 0 <= i < remaining.len() && eligible(remaining[i], taken, season)
                && forall|j: int| 0 <= j < i ==> !eligible(remaining[j], taken, season),
            None => forall|j: int|
                0 <= j < remaining.len() ==> !eligible(remaining[j], taken, season),
        },
    decreases remaining.len(),
{
    if remaining.len() > 0 && !eligible(remaining[0], taken, season) {
        let rest = remaining.drop_first();
        lemma_first_eligible(rest, taken, season);
        match first_eligible(rest, taken, season) {
            Some(j) => {
                assert(remaining[j + 1] == rest[j]);
                assert forall|k: int| 0 <= k < j + 1 implies !eligible(
                    remaining[k],
                    taken,
                    season,
                ) by {
                    if k > 0 {
                        assert(remaining[k] == rest[k - 1]);
                        assert(!eligible(rest[k - 1], taken, season));
                    }
                }
            },
            None => {
                assert forall|k: int| 0 <= k < remaining.len() implies !eligible(
                    remaining[k],
                    taken,
                    season,
                ) by {
                    if k > 0 {
                        assert(remaining[k] == rest[k - 1]);
                        assert(!eligible(rest[k - 1], taken, season));
                    }
                }
            },
        }
    }
}

/// One term's worth of picks: repeatedly take the first eligible course
/// out of the remaining list, up to the capacity; returns the picked
/// courses in pick order, and the courses left over. The taken set does
/// not grow during a term: courses picked into the same term do not
/// enable each other.
pub open spec fn spec_fill_term(
    remaining: Seq<CourseView>,
    taken: Seq<CourseView>,
    season: Season,
    capacity: u32,
) -> (Seq<CourseView>, Seq<CourseView>)
    decreases capacity,
{
    if capacity == 0 {
        (Seq::empty(), remaining)
    } else {
        match first_eligible(remaining, taken, season) {
            None => (Seq::empty(), remaining),
            Some(i) => {
                let c = remaining[i];
                let rec = spec_fill_term(remaining.remove(i), taken, season, (capacity - 1) as u32);
                (seq![c] + rec.0, rec.1)
            },
        }
    }
}

/// Filling a term only redistributes courses: every remaining course is
/// either picked or left over, and at most `capacity` are picked.
pub proof fn lemma_fill_term_basics(
    remaining: Seq<CourseView>,
    taken: Seq<CourseView>,
    season: Season,
    capacity: u32,
)
    ensures
        ({
            let (picked, rest) = spec_fill_term(remaining, taken, season, capacity);
            &&& picked.len() + rest.len() == remaining.len()
            &&& picked.len() <= capacity
        }),
    decreases capacity,
{
    broadcast use vstd::seq_lib::group_to_multiset_ensures;

    if capacity > 0 {
        lemma_first_eligible(remaining, taken, season);
        match first_eligible(remaining, taken, season) {
            None => {},
            Some(i) => {
                lemma_fill_term_basics(remaining.remove(i), taken, season, (capacity - 1) as u32);
            },
        }
    }
}

/// How many terms in a row may pick nothing before the sequencer gives
/// up: one for each season of the cycle.
pub open spec fn spec_cycle_len(include_summer: bool) -> nat {
    if include_summer {
        3
    } else {
        2
    }
}

/// The year after a season step: entering Winter starts the next year.
pub open spec fn spec_step_year(new_season: Season, year: u32) -> u32 {
    if new_season == Season::Winter {
        if year == u32::MAX {
            0
        } else {
            (year + 1) as u32
        }
    } else {
        year
    }
}

/// The terms the greedy allocator produces from this state on, or
/// nothing when a whole season cycle passes without one pick: the taken
/// set then never grows again and no further term could pick either.
pub open spec fn spec_schedule(
    remaining: Seq<CourseView>,
    taken: Seq<CourseView>,
    season: Season,
    year: u32,
    config: SequenceConfig,
    empties_left: nat,
) -> Option<Seq<TermView>>
    decreases remaining.len(), empties_left,
    via spec_schedule_decreases
{
    if remaining.len() == 0 {
        Some(Seq::empty())
    } else {
        let (picked, rest) = spec_fill_term(remaining, taken, season, config.max_courses_per_term);
        let term = TermView { season, year, courses: picked };
        let next_season = season.spec_next(config.include_summer);
        let next_year = spec_step_year(next_season, year);
        if picked.len() == 0 {
            if empties_left == 0 {
                None
            } else {
                match spec_schedule(
                    remaining,
                    taken,
                    next_season,
                    next_year,
                    config,
                    (empties_left - 1) as nat,
                ) {
                    Some(terms) => Some(seq![term] + terms),
                    None => None,
                }
            }
        } else {
            match spec_schedule(
                rest,
                taken + picked,
                next_season,
                next_year,
                config,
                (spec_cycle_len(config.include_summer) - 1) as nat,
            ) {
                Some(terms) => Some(seq![term] + terms),
                None => None,
            }
        }
    }
}

#[via_fn]
proof fn spec_schedule_decreases(
    remaining: Seq<CourseView>,
    taken: Seq<CourseView>,
    season: Season,
    year: u32,
    config: SequenceConfig,
    empties_left: nat,
) {
    if remaining.len() > 0 {
        lemma_fill_term_basics(remaining, taken, season, config.max_courses_per_term);
    }
}

/// The terms produced for a whole catalog: courses are first stably
/// sorted ascending by catalog code, then allocated starting from the
/// configured season and year with nothing yet taken.
pub open spec fn spec_sequence(courses: Seq<CourseView>, config: SequenceConfig) -> Option<
    Seq<TermView>,
> {
    spec_schedule(
        spec_sort_courses(courses),
        Seq::empty(),
        config.starting_semester,
        config.starting_year,
        config,
        (spec_cycle_len(config.include_summer) - 1) as nat,
    )
}

/// Inserts a course into an already sorted list, before the first
/// course with an equal or greater catalog code, so that courses with
/// equal codes keep their original relative order.
pub open spec fn spec_insert_sorted(c: CourseView, s: Seq<CourseView>) -> Seq<CourseView>
    decreases s.len(),
{
    if s.len() == 0 {
        seq![c]
    } else if c.catalog <= s[0].catalog {
        seq![c] + s
    } else {
        seq![s[0]] + spec_insert_sorted(c, s.drop_first())
    }
}

/// Stable insertion sort of courses, ascending by catalog code.
pub open spec fn spec_sort_courses(s: Seq<CourseView>) -> Seq<CourseView>
    decreases s.len(),
{
    if s.len() == 0 {
        Seq::empty()
    } else {
        spec_insert_sorted(s[0], spec_sort_courses(s.drop_first()))
    }
}

/// Inserting before the first equal-or-greater code is the same as
/// splitting the list at that position.
proof fn lemma_insert_sorted_at(c: CourseView, s: Seq<CourseView>, j: int)
    requires
        0 <= j <= s.len(),
        forall|k: int| 0 <= k < j ==> s[k].catalog < c.catalog,
        j < s.len() ==> c.catalog <= s[j].catalog,
    ensures
        spec_insert_sorted(c, s) == s.take(j) + seq![c] + s.skip(j),
    decreases j,
{
    if j == 0 {
        if s.len() == 0 {
            assert(spec_insert_sorted(c, s) =~= s.take(0) + seq![c] + s.skip(0));
        } else {
            assert(spec_insert_sorted(c, s) =~= s.take(0) + seq![c] + s.skip(0));
        }
    } else {
        let rest = s.drop_first();
        assert(forall|k: int| 0 <= k < j - 1 ==> rest[k] == s[k + 1]);
        lemma_insert_sorted_at(c, rest, j - 1);
        assert(spec_insert_sorted(c, s) == seq![s[0]] + spec_insert_sorted(c, rest));
        assert(seq![s[0]] + (rest.take(j - 1) + seq![c] + rest.skip(j - 1)) =~= s.take(j) + seq![c]
            + s.skip(j));
    }
}

/// The index of the first remaining course whose prerequisite tree is
/// satisfied by the taken courses and which is offered this season.
fn find_first_eligible(remaining: &Vec<Course>, taken: &Vec<Course>, season: Season) -> (r: Option<
    usize,
>)
    ensures
        match r {
            Some(i) => first_eligible(remaining.deep_view(), taken.deep_view(), season) == Some(
                i as int,
            ),
            None => first_eligible(remaining.deep_view(), taken.deep_view(), season) is None,
        },
{
    let ghost rem = remaining.deep_view();
    let ghost tak = taken.deep_view();
    let n = remaining.len();
    let mut i: usize = 0;
    while i < n
        invariant
            0 <= i <= n,
            n == remaining.len(),
            rem == remaining.deep_view(),
            tak == taken.deep_view(),
            forall|j: int| 0 <= j < i ==> !eligible(rem[j], tak, season),
        decreases n - i,
    {
        let c = &remaining[i];
        let ok = validate_prerequisites(&c.prerequisites, taken) && c.terms_offered.offered(season);
        if ok {
            proof {
                assert(eligible(rem[i as int], tak, season));
                lemma_first_eligible(rem, tak, season);
                match first_eligible(rem, tak, season) {
                    Some(k) => {
                        assert(!(k < i) && !(i < k));
                    },
                    None => {
                        assert(false);
                    },
                }
            }
            return Some(i);
        }
        i += 1;
    }
    proof {
        lemma_first_eligible(rem, tak, season);
        if first_eligible(rem, tak, season) is Some {
            let k = first_eligible(rem, tak, season)->Some_0;
            assert(!eligible(rem[k], tak, season));
        }
    }
    None
}

/// Stable in-place-style insertion sort of the catalog, ascending by
/// catalog code; courses with equal codes keep their original order.
fn sort_courses(courses: Vec<Course>) -> (r: Vec<Course>)
    ensures
        r.deep_view() == spec_sort_courses(courses.deep_view()),
{
    let ghost cs = courses.deep_view();
    let n = courses.len();
    let mut sorted: Vec<Course> = Vec::new();
    let mut idx: usize = 0;
    // courses are consumed from the back so that each step prepends
    // cs[i] to the sort of the rest, as the specification does
    while idx < n
        invariant
            0 <= idx <= n,
            n == cs.len(),
            cs == courses.deep_view(),
            n == courses.len(),
            sorted.deep_view() == spec_sort_courses(cs.skip(n - idx)),
        decreases n - idx,
    {
        let ghost prev = sorted.deep_view();
        let i = n - idx - 1;
        let c = courses[i].clone();
        let ghost cv = cs[i as int];
        assert(c.deep_view() == cv);
        // find the first position with an equal or greater catalog code
        let m = sorted.len();
        let mut j: usize = 0;
        while j < m
            invariant
                0 <= j <= m,
                m == sorted.len(),
                prev == sorted.deep_view(),
                cv == c.deep_view(),
                forall|k: int| 0 <= k < j ==> prev[k].catalog < cv.catalog,
            ensures
                0 <= j <= m,
                forall|k: int| 0 <= k < j ==> prev[k].catalog < cv.catalog,
                j < m ==> cv.catalog <= prev[j as int].catalog,
            decreases m - j,
        {
            if c.catalog_code <= sorted[j].catalog_code {
                assert(cv.catalog <= prev[j as int].catalog);
                break;
            }
            assert(prev[j as int].catalog < cv.catalog);
            j += 1;
        }
        proof {
            lemma_insert_sorted_at(cv, prev, j as int);
        }
        sorted.insert(j, c);
        proof {
            assert(sorted.deep_view() =~= prev.take(j as int) + seq![cv] + prev.skip(j as int));
            assert(cs.skip(n - idx - 1).drop_first() =~= cs.skip(n - idx));
            assert(cs.skip(n - idx - 1)[0] == cs[i as int]);
            assert(sorted.deep_view() == spec_sort_courses(cs.skip(n - idx - 1)));
        }
        idx += 1;
    }
    proof {
        assert(cs.skip(0) =~= cs);
    }
    sorted
}

/// The courses of all terms, in term order and pick order.
pub open spec fn terms_courses(terms: Seq<TermView>) -> Seq<CourseView>
    decreases terms.len(),
{
    if terms.len() == 0 {
        Seq::empty()
    } else {
        terms[0].courses + terms_courses(terms.drop_first())
    }
}

/// One prepended term contributes exactly its own courses.
proof fn lemma_terms_courses_cons(term: TermView, tail: Seq<TermView>)
    ensures
        terms_courses(seq![term] + tail) == term.courses + terms_courses(tail),
{
    assert((seq![term] + tail)[0] == term);
    assert((seq![term] + tail).drop_first() =~= tail);
}

/// Filling a term only redistributes the courses: picked and left-over
/// courses together are exactly the remaining ones.
pub proof fn lemma_fill_term_multiset(
    remaining: Seq<CourseView>,
    taken: Seq<CourseView>,
    season: Season,
    capacity: u32,
)
    ensures
        ({
            let (picked, rest) = spec_fill_term(remaining, taken, season, capacity);
            picked.to_multiset().add(rest.to_multiset()) == remaining.to_multiset()
        }),
    decreases capacity,
{
    broadcast use vstd::seq_lib::group_to_multiset_ensures;
    broadcast use vstd::seq_lib::lemma_multiset_commutative;
    broadcast use vstd::multiset::group_multiset_axioms;

    let (picked, rest) = spec_fill_term(remaining, taken, season, capacity);
    if capacity == 0 || first_eligible(remaining, taken, season) is None {
        assert(picked =~= Seq::<CourseView>::empty());
        assert(picked.to_multiset().add(rest.to_multiset()) =~= remaining.to_multiset());
    } else {
        lemma_first_eligible(remaining, taken, season);
        let i = first_eligible(remaining, taken, season)->Some_0;
        let c = remaining[i];
        lemma_fill_term_multiset(remaining.remove(i), taken, season, (capacity - 1) as u32);
        let rec = spec_fill_term(remaining.remove(i), taken, season, (capacity - 1) as u32);
        assert(remaining.remove(i).to_multiset() =~= remaining.to_multiset().remove(c));
        assert(seq![c] =~= Seq::<CourseView>::empty().push(c));
        assert(seq![c].to_multiset() =~= Multiset::<CourseView>::empty().insert(c));
        assert(picked.to_multiset() =~= seq![c].to_multiset().add(rec.0.to_multiset()));
        assert(remaining.contains(c));
        assert(remaining.to_multiset().count(c) > 0);
        assert(rec.0.to_multiset().add(rec.1.to_multiset()) == remaining.to_multiset().remove(c));
        assert(picked.to_multiset() =~= rec.0.to_multiset().insert(c));
        assert(picked.to_multiset().add(rest.to_multiset()) =~= rec.0.to_multiset().add(
            rec.1.to_multiset(),
        ).insert(c));
        assert(remaining.to_multiset().remove(c).insert(c) =~= remaining.to_multiset());
    }
}

/// Every course picked into a term was eligible when the term opened:
/// its prerequisite tree is satisfied by the courses taken before the
/// term, and it is offered in the term's season.
pub proof fn lemma_fill_term_picks(
    remaining: Seq<CourseView>,
    taken: Seq<CourseView>,
    season: Season,
    capacity: u32,
)
    ensures
        ({
            let (picked, rest) = spec_fill_term(remaining, taken, season, capacity);
            forall|k: int| 0 <= k < picked.len() ==> eligible(#[trigger] picked[k], taken, season)
        }),
    decreases capacity,
{
    let (picked, rest) = spec_fill_term(remaining, taken, season, capacity);
    if capacity > 0 && first_eligible(remaining, taken, season) is Some {
        lemma_first_eligible(remaining, taken, season);
        let i = first_eligible(remaining, taken, season)->Some_0;
        let c = remaining[i];
        lemma_fill_term_picks(remaining.remove(i), taken, season, (capacity - 1) as u32);
        let rec = spec_fill_term(remaining.remove(i), taken, season, (capacity - 1) as u32);
        assert forall|k: int| 0 <= k < picked.len() implies eligible(
            #[trigger] picked[k],
            taken,
            season,
        ) by {
            if k == 0 {
                assert(picked[0] == c);
            } else {
                assert(picked[k] == rec.0[k - 1]);
            }
        }
    }
}

/// Law: for a catalog the allocator schedules, the courses across all
/// terms are exactly the remaining ones — none dropped, none duplicated.
pub proof fn lemma_schedule_conservation(
    remaining: Seq<CourseView>,
    taken: Seq<CourseView>,
    season: Season,
    year: u32,
    config: SequenceConfig,
    empties_left: nat,
)
    requires
        spec_schedule(remaining, taken, season, year, config, empties_left) is Some,
    ensures
        terms_courses(
            spec_schedule(remaining, taken, season, year, config, empties_left)->Some_0,
        ).to_multiset() == remaining.to_multiset(),
    decreases remaining.len(), empties_left,
{
    broadcast use vstd::seq_lib::group_to_multiset_ensures;
    broadcast use vstd::seq_lib::lemma_multiset_commutative;
    broadcast use vstd::multiset::group_multiset_axioms;

    let terms = spec_schedule(remaining, taken, season, year, config, empties_left)->Some_0;
    if remaining.len() == 0 {
        assert(terms =~= Seq::<TermView>::empty());
        assert(terms_courses(terms) =~= Seq::<CourseView>::empty());
        assert(terms_courses(terms).to_multiset() =~= remaining.to_multiset());
    } else {
        let (picked, rest) = spec_fill_term(remaining, taken, season, config.max_courses_per_term);
        let term = TermView { season, year, courses: picked };
        let next_season = season.spec_next(config.include_summer);
        let next_year = spec_step_year(next_season, year);
        lemma_fill_term_multiset(remaining, taken, season, config.max_courses_per_term);
        lemma_fill_term_basics(remaining, taken, season, config.max_courses_per_term);
        if picked.len() == 0 {
            let tail = spec_schedule(
                remaining,
                taken,
                next_season,
                next_year,
                config,
                (empties_left - 1) as nat,
            )->Some_0;
            lemma_schedule_conservation(
                remaining,
                taken,
                next_season,
                next_year,
                config,
                (empties_left - 1) as nat,
            );
            lemma_terms_courses_cons(term, tail);
            assert(picked =~= Seq::<CourseView>::empty());
            assert(picked + terms_courses(tail) =~= terms_courses(tail));
        } else {
            let tail = spec_schedule(
                rest,
                taken + picked,
                next_season,
                next_year,
                config,
                (spec_cycle_len(config.include_summer) - 1) as nat,
            )->Some_0;
            lemma_schedule_conservation(
                rest,
                taken + picked,
                next_season,
                next_year,
                config,
                (spec_cycle_len(config.include_summer) - 1) as nat,
            );
            lemma_terms_courses_cons(term, tail);
            assert(terms_courses(terms) == picked + terms_courses(tail));
            assert(terms_courses(terms).to_multiset() =~= remaining.to_multiset());
        }
    }
}

/// Inserting a course into a sorted list only adds that course.
proof fn lemma_insert_sorted_multiset(c: CourseView, s: Seq<CourseView>)
    ensures
        spec_insert_sorted(c, s).to_multiset() == s.to_multiset().insert(c),
    decreases s.len(),
{
    broadcast use vstd::seq_lib::group_to_multiset_ensures;
    broadcast use vstd::seq_lib::lemma_multiset_commutative;
    broadcast use vstd::multiset::group_multiset_axioms;

    assert(seq![c] =~= Seq::<CourseView>::empty().push(c));
    assert(seq![c].to_multiset() =~= Multiset::<CourseView>::empty().insert(c));
    if s.len() == 0 {
        assert(spec_insert_sorted(c, s).to_multiset() =~= s.to_multiset().insert(c));
    } else if c.catalog <= s[0].catalog {
        assert(spec_insert_sorted(c, s).to_multiset() =~= s.to_multiset().insert(c));
    } else {
        lemma_insert_sorted_multiset(c, s.drop_first());
        assert(seq![s[0]] =~= Seq::<CourseView>::empty().push(s[0]));
        assert(seq![s[0]].to_multiset() =~= Multiset::<CourseView>::empty().insert(s[0]));
        assert(s =~= seq![s[0]] + s.drop_first());
        assert(spec_insert_sorted(c, s).to_multiset() =~= s.to_multiset().insert(c));
    }
}

/// Sorting the catalog only reorders it.
pub proof fn lemma_sort_courses_multiset(s: Seq<CourseView>)
    ensures
        spec_sort_courses(s).to_multiset() == s.to_multiset(),
    decreases s.len(),
{
    broadcast use vstd::seq_lib::group_to_multiset_ensures;
    broadcast use vstd::multiset::group_multiset_axioms;

    if s.len() > 0 {
        lemma_sort_courses_multiset(s.drop_first());
        lemma_insert_sorted_multiset(s[0], spec_sort_courses(s.drop_first()));
        assert(s =~= Seq::<CourseView>::empty().push(s[0]) + s.drop_first());
        assert(Seq::<CourseView>::empty().push(s[0]).to_multiset()
            =~= Multiset::<CourseView>::empty().insert(s[0]));
        broadcast use vstd::seq_lib::lemma_multiset_commutative;

        assert(spec_sort_courses(s).to_multiset() =~= s.to_multiset());
    }
}

/// Law: for a catalog the sequencer schedules, the courses across all
/// returned terms are exactly the input catalog — no course is dropped,
/// none is duplicated.
pub proof fn lemma_sequence_conservation(courses: Seq<CourseView>, config: SequenceConfig)
    requires
        spec_sequence(courses, config) is Some,
    ensures
        terms_courses(spec_sequence(courses, config)->Some_0).to_multiset()
            == courses.to_multiset(),
{
    lemma_sort_courses_multiset(courses);
    lemma_schedule_conservation(
        spec_sort_courses(courses),
        Seq::empty(),
        config.starting_semester,
        config.starting_year,
        config,
        (spec_cycle_len(config.include_summer) - 1) as nat,
    );
}

/// What holds of one produced term: it is within capacity, each course
/// is offered in its season, and each course's prerequisite tree is
/// satisfied by the prior courses.
pub open spec fn term_within_rules(tm: TermView, config: SequenceConfig, prior: Seq<CourseView>) -> bool {
    &&& tm.courses.len() <= config.max_courses_per_term
    &&& forall|k: int|
        0 <= k < tm.courses.len() ==> (#[trigger] tm.courses[k]).offered.spec_offered(tm.season)
    &&& forall|k: int|
        0 <= k < tm.courses.len() ==> prereq_satisfied((#[trigger] tm.courses[k]).prereq, prior)
}

/// Law: every term the allocator produces respects the constraints: it
/// holds at most the configured number of courses, each of its courses
/// is offered in its season, and each of its courses' prerequisite trees
/// is satisfied by the taken set plus the courses of strictly earlier
/// terms — no course precedes, in term order, a course it depends on.
pub proof fn lemma_schedule_sound(
    remaining: Seq<CourseView>,
    taken: Seq<CourseView>,
    season: Season,
    year: u32,
    config: SequenceConfig,
    empties_left: nat,
)
    requires
        spec_schedule(remaining, taken, season, year, config, empties_left) is Some,
    ensures
        ({
            let terms = spec_schedule(remaining, taken, season, year, config, empties_left)
                ->Some_0;
            forall|t: int|
                0 <= t < terms.len() ==> term_within_rules(
                    #[trigger] terms[t],
                    config,
                    taken + terms_courses(terms.take(t)),
                )
        }),
    decreases remaining.len(), empties_left,
{
    let terms = spec_schedule(remaining, taken, season, year, config, empties_left)->Some_0;
    if remaining.len() == 0 {
        assert(terms =~= Seq::<TermView>::empty());
    } else {
        let (picked, rest) = spec_fill_term(remaining, taken, season, config.max_courses_per_term);
        let term = TermView { season, year, courses: picked };
        let next_season = season.spec_next(config.include_summer);
        let next_year = spec_step_year(next_season, year);
        lemma_fill_term_basics(remaining, taken, season, config.max_courses_per_term);
        lemma_fill_term_picks(remaining, taken, season, config.max_courses_per_term);
        let (tail_remaining, tail_taken, tail_empties): (Seq<CourseView>, Seq<CourseView>, nat) =
            if picked.len() == 0 {
            (remaining, taken, (empties_left - 1) as nat)
        } else {
            (rest, taken + picked, (spec_cycle_len(config.include_summer) - 1) as nat)
        };
        let tail = spec_schedule(
            tail_remaining,
            tail_taken,
            next_season,
            next_year,
            config,
            tail_empties,
        )->Some_0;
        lemma_schedule_sound(
            tail_remaining,
            tail_taken,
            next_season,
            next_year,
            config,
            tail_empties,
        );
        assert(terms == seq![term] + tail);
        assert forall|t: int| 0 <= t < terms.len() implies term_within_rules(
            #[trigger] terms[t],
            config,
            taken + terms_courses(terms.take(t)),
        ) by {
            if t == 0 {
                assert(terms[0] == term);
                assert(terms.take(0) =~= Seq::<TermView>::empty());
                assert(taken + terms_courses(terms.take(0)) =~= taken);
                assert forall|k: int| 0 <= k < term.courses.len() implies (
                #[trigger] term.courses[k]).offered.spec_offered(term.season) && prereq_satisfied(
                    term.courses[k].prereq,
                    taken,
                ) by {
                    assert(eligible(picked[k], taken, season));
                }
            } else {
                assert(terms[t] == tail[t - 1]);
                assert(term_within_rules(
                    tail[t - 1],
                    config,
                    tail_taken + terms_courses(tail.take(t - 1)),
                ));
                assert(terms.take(t) =~= seq![term] + tail.take(t - 1));
                lemma_terms_courses_cons(term, tail.take(t - 1));
                assert(taken + terms_courses(terms.take(t)) =~= tail_taken + terms_courses(
                    tail.take(t - 1),
                ));
            }
        }
    }
}

/// Law: every term the sequencer returns holds at most the configured
/// number of courses, each course sits in a term whose season it is
/// offered in, and no course precedes, in term order, a course its
/// prerequisite tree depends on.
pub proof fn lemma_sequence_sound(courses: Seq<CourseView>, config: SequenceConfig)
    requires
        spec_sequence(courses, config) is Some,
    ensures
        ({
            let terms = spec_sequence(courses, config)->Some_0;
            forall|t: int|
                0 <= t < terms.len() ==> term_within_rules(
                    #[trigger] terms[t],
                    config,
                    terms_courses(terms.take(t)),
                )
        }),
{
    let terms = spec_sequence(courses, config)->Some_0;
    lemma_schedule_sound(
        spec_sort_courses(courses),
        Seq::empty(),
        config.starting_semester,
        config.starting_year,
        config,
        (spec_cycle_len(config.include_summer) - 1) as nat,
    );
    assert forall|t: int| 0 <= t < terms.len() implies term_within_rules(
        #[trigger] terms[t],
        config,
        terms_courses(terms.take(t)),
    ) by {
        assert(Seq::<CourseView>::empty() + terms_courses(terms.take(t)) =~= terms_courses(
            terms.take(t),
        ));
        assert(term_within_rules(
            terms[t],
            config,
            Seq::<CourseView>::empty() + terms_courses(terms.take(t)),
        ));
    }
}

/// Law: the pipeline is deterministic — the schedule is a function of
/// the catalog and the configuration alone, so identical input yields
/// the identical term list.
pub proof fn lemma_sequence_deterministic(
    courses: Seq<CourseView>,
    config: SequenceConfig,
    r1: Option<Seq<TermView>>,
    r2: Option<Seq<TermView>>,
)
    requires
        r1 == spec_sequence(courses, config),
        r2 == spec_sequence(courses, config),
    ensures
        r1 == r2,
{
}

/// A copy of the course list with the same model.
fn clone_courses(v: &Vec<Course>) -> (r: Vec<Course>)
    ensures
        r.deep_view() == v.deep_view(),
{
    let r = v.clone();
    proof {
        assert forall|i: int| 0 <= i < v.len() implies r.deep_view()[i] == v.deep_view()[i] by {
            assert(vstd::pervasive::cloned::<Course>(v[i], r[i]));
        }
        assert(r.deep_view() =~= v.deep_view());
    }
    r
}

/// Fills one term: repeatedly scans the remaining courses for the first
/// eligible one, removes it and appends it to the picks, until the term
/// is full or no course qualifies.
fn fill_term(remaining: &mut Vec<Course>, taken: &Vec<Course>, season: Season, capacity: u32) -> (picked: Vec<Course>)
    ensures
        ({
            let r = spec_fill_term(old(remaining).deep_view(), taken.deep_view(), season, capacity);
            picked.deep_view() == r.0 && final(remaining).deep_view() == r.1
        }),
{
    let ghost rem0 = remaining.deep_view();
    let ghost tak = taken.deep_view();
    let mut picked: Vec<Course> = Vec::new();
    let mut count: u32 = 0;
    while count < capacity
        invariant
            0 <= count <= capacity,
            tak == taken.deep_view(),
            ({
                let r = spec_fill_term(rem0, tak, season, capacity);
                let sub = spec_fill_term(
                    remaining.deep_view(),
                    tak,
                    season,
                    (capacity - count) as u32,
                );
                r.0 == picked.deep_view() + sub.0 && r.1 == sub.1
            }),
        ensures
            ({
                let r = spec_fill_term(rem0, tak, season, capacity);
                picked.deep_view() == r.0 && remaining.deep_view() == r.1
            }),
        decreases capacity - count,
    {
        let ghost rem_before = remaining.deep_view();
        let ghost picked_before = picked.deep_view();
        match find_first_eligible(remaining, taken, season) {
            None => {
                proof {
                    assert(spec_fill_term(rem_before, tak, season, (capacity - count) as u32).0
                        =~= Seq::<CourseView>::empty());
                    assert(picked.deep_view() + Seq::<CourseView>::empty() =~= picked.deep_view());
                }
                break;
            },
            Some(i) => {
                proof {
                    lemma_first_eligible(rem_before, tak, season);
                }
                let c = remaining.remove(i);
                picked.push(c);
                proof {
                    let cv = rem_before[i as int];
                    assert(remaining.deep_view() =~= rem_before.remove(i as int));
                    assert(picked.deep_view() =~= picked_before.push(cv));
                    let sub_before = spec_fill_term(
                        rem_before,
                        tak,
                        season,
                        (capacity - count) as u32,
                    );
                    let sub_after = spec_fill_term(
                        remaining.deep_view(),
                        tak,
                        season,
                        (capacity - count - 1) as u32,
                    );
                    assert(sub_before.0 == seq![cv] + sub_after.0 && sub_before.1 == sub_after.1);
                    assert(picked_before + sub_before.0 =~= picked.deep_view() + sub_after.0);
                }
                count += 1;
            },
        }
    }
    proof {
        if count == capacity {
            // the term is full: the tail specification picks nothing more
            assert(spec_fill_term(remaining.deep_view(), tak, season, 0u32).0
                =~= Seq::<CourseView>::empty());
            assert(picked.deep_view() + Seq::<CourseView>::empty() =~= picked.deep_view());
        }
    }
    picked
}

/// Error text reported when a whole season cycle passes without one
/// pick, so that no further term could make progress either.
pub(crate) fn stall_message() -> (r: String)
    ensures
        r@ == "cannot complete schedule"@,
{
    let r: String = "cannot complete schedule".to_owned();
    r
}

/// Sequences the catalog into terms: courses are stably sorted ascending
/// by catalog code, then greedily assigned to successive terms. Returns
/// the terms in order, or an error when a whole season cycle passes with
/// no course picked, which could never resolve itself.
pub fn sequence_courses(courses: Vec<Course>, config: SequenceConfig) -> (r: Result<
    Vec<Term>,
    String,
>)
    ensures
        (r is Ok) == (spec_sequence(courses.deep_view(), config) is Some),
        r matches Ok(terms) ==> Some(terms.deep_view()) == spec_sequence(
            courses.deep_view(),
            config,
        ),
        r matches Err(e) ==> e@ == "cannot complete schedule"@,
{
    let ghost input = courses.deep_view();
    let mut remaining = sort_courses(courses);
    let mut taken: Vec<Course> = Vec::new();
    let mut result: Vec<Term> = Vec::new();
    let mut season = config.starting_semester;
    let mut year = config.starting_year;
    let cycle: u32 = if config.include_summer {
        3
    } else {
        2
    };
    let mut empties_left: u32 = cycle - 1;
    proof {
        assert(taken.deep_view() =~= Seq::<CourseView>::empty());
        assert(result.deep_view() =~= Seq::<TermView>::empty());
        let tail = spec_schedule(
            remaining.deep_view(),
            taken.deep_view(),
            season,
            year,
            config,
            empties_left as nat,
        );
        assert(tail == spec_sequence(input, config));
        match tail {
            Some(ts) => {
                assert(result.deep_view() + ts =~= ts);
            },
            None => {},
        }
    }
    while remaining.len() > 0
        invariant
            input == courses.deep_view(),
            cycle == spec_cycle_len(config.include_summer),
            empties_left < cycle,
            ({
                let tail = spec_schedule(
                    remaining.deep_view(),
                    taken.deep_view(),
                    season,
                    year,
                    config,
                    empties_left as nat,
                );
                match tail {
                    Some(ts) => spec_sequence(input, config) == Some(result.deep_view() + ts),
                    None => spec_sequence(input, config) is None,
                }
            }),
        decreases remaining.len(), empties_left,
    {
        let ghost rem_before = remaining.deep_view();
        let ghost tak_before = taken.deep_view();
        let ghost result_before = result.deep_view();
        let ghost old_empties = empties_left;
        let picked = fill_term(&mut remaining, &taken, season, config.max_courses_per_term);
        let picked_count = picked.len();
        let ghost pickedv = picked.deep_view();
        proof {
            lemma_fill_term_basics(rem_before, tak_before, season, config.max_courses_per_term);
        }
        let next_season = season.next(config.include_summer);
        let next_year: u32 = if next_season == Season::Winter {
            if year == u32::MAX {
                0
            } else {
                year + 1
            }
        } else {
            year
        };
        let mut for_taken = clone_courses(&picked);
        let term = Term::new(season, year, picked);
        let ghost termv = TermView { season, year, courses: pickedv };
        result.push(term);
        proof {
            assert(result.deep_view() =~= result_before.push(termv));
        }
        if picked_count == 0 {
            if empties_left == 0 {
                // a whole season cycle with no pick: the taken set can
                // never grow again, so no course will ever qualify
                proof {
                    assert(pickedv.len() == 0);
                    assert(spec_schedule(
                        rem_before,
                        tak_before,
                        season,
                        year,
                        config,
                        0nat,
                    ) is None);
                }
                return Err(stall_message());
            }
            empties_left = empties_left - 1;
            proof {
                assert(pickedv.len() == 0);
                let tail_before = spec_schedule(
                    rem_before,
                    tak_before,
                    season,
                    year,
                    config,
                    old_empties as nat,
                );
                let tail_after = spec_schedule(
                    remaining.deep_view(),
                    taken.deep_view(),
                    next_season,
                    next_year,
                    config,
                    empties_left as nat,
                );
                assert(remaining.deep_view() == rem_before);
                assert(taken.deep_view() == tak_before);
                match tail_after {
                    Some(ts) => {
                        assert(tail_before == Some(seq![termv] + ts));
                        assert(result_before + (seq![termv] + ts) =~= result.deep_view() + ts);
                    },
                    None => {
                        assert(tail_before is None);
                    },
                }
            }
        } else {
            taken.append(&mut for_taken);
            empties_left = cycle - 1;
            proof {
                assert(taken.deep_view() =~= tak_before + pickedv);
                let tail_before = spec_schedule(
                    rem_before,
                    tak_before,
                    season,
                    year,
                    config,
                    old_empties as nat,
                );
                let tail_after = spec_schedule(
                    remaining.deep_view(),
                    taken.deep_view(),
                    next_season,
                    next_year,
                    config,
                    empties_left as nat,
                );
                match tail_after {
                    Some(ts) => {
                        assert(tail_before == Some(seq![termv] + ts));
                        assert(result_before + (seq![termv] + ts) =~= result.deep_view() + ts);
                    },
                    None => {
                        assert(tail_before is None);
                    },
                }
            }
        }
        season = next_season;
        year = next_year;
    }
    proof {
        assert(result.deep_view() + Seq::<TermView>::empty() =~= result.deep_view());
    }
    Ok(result)
}

} // verus!
