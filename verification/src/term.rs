//! Seasons and academic terms.
use vstd::prelude::*;

use crate::course::Course;
use crate::course::CourseView;

verus! {

/// A season during which a term can take place.
#[derive(Debug, Clone, Copy, PartialEq, Eq, Structural)]
pub enum Season {
    Summer,
    Fall,
    Winter,
}

impl Season {
    /// The season that follows `self` in the academic cycle
    /// Summer -> Fall -> Winter -> (Summer when included, else Fall).
    pub open spec fn spec_next(self, include_summer: bool) -> Season {
        match self {
            Season::Summer => Season::Fall,
            Season::Fall => Season::Winter,
            Season::Winter => if include_summer {
                Season::Summer
            } else {
                Season::Fall
            },
        }
    }

    /// Advances to the next season of the cycle; Summer is entered only
    /// when `include_summer` is set.
    pub fn next(&self, include_summer: bool) -> (s: Season)
        ensures
            s == self.spec_next(include_summer),
    {
        match self {
            Season::Summer => Season::Fall,
            Season::Fall => Season::Winter,
            Season::Winter => {
                if include_summer {
                    Season::Summer
                } else {
                    Season::Fall
                }
            },
        }
    }
}

/// Mathematical model of a term: its season, its year, and the courses
/// assigned to it, in pick order.
pub ghost struct TermView {
    pub season: Season,
    pub year: u32,
    pub courses: Seq<CourseView>,
}

/// One academic session holding the courses assigned to it.
#[derive(Debug)]
pub struct Term {
    /// The season during which the term takes place
    season: Season,
    /// The year during which the term takes place
    year: u32,
    /// The courses taken during the term
    pub courses: Vec<Course>,
}

impl DeepView for Term {
    type V = TermView;

    closed spec fn deep_view(&self) -> TermView {
        TermView { season: self.season, year: self.year, courses: self.courses.deep_view() }
    }
}

impl Term {
    /// Assembles a term from its season, year and courses.
    pub fn new(season: Season, year: u32, courses: Vec<Course>) -> (r: Self)
        ensures
            r.deep_view() == (TermView { season, year, courses: courses.deep_view() }),
    {
        Self { season, year, courses }
    }

    /// The season during which the term takes place.
    pub fn season(&self) -> (s: Season)
        ensures
            s == self.deep_view().season,
    {
        self.season
    }

    /// The year during which the term takes place.
    pub fn year(&self) -> (y: u32)
        ensures
            y == self.deep_view().year,
    {
        self.year
    }
}

} // verus!
