//! A course-sequencing library: it parses free-text prerequisite
//! descriptions into expression trees, evaluates them against a set of
//! completed courses, validates a catalog for feasibility, and greedily
//! assigns courses to successive terms under prerequisite, availability,
//! and capacity constraints.
use vstd::prelude::*;

pub mod config;
pub mod course;
pub mod csv;
pub mod input;
pub mod parser;
pub mod prerequisite_tree;
pub mod prerequisites;
pub mod sequence;
pub mod term;
pub mod text;

use crate::config::SequenceConfig;
use crate::course::Course;
use crate::input::spec_validate;
use crate::input::validate_input;
use crate::sequence::sequence_courses;
use crate::sequence::spec_sequence;
use crate::term::Season;
use crate::term::Term;

verus! {

/// Anything that can sequence a catalog of courses into terms.
pub trait Sequence {
    /// The configuration the catalog is sequenced under.
    spec fn config_spec(&self) -> SequenceConfig;

    /// Sequences the catalog: validates it first, then greedily assigns
    /// courses to terms. Returns the validator's message when the
    /// catalog is rejected, the allocator's terms when it succeeds, and
    /// the stall message when a whole season cycle passes with no pick.
    fn sequence(&self, courses: Vec<Course>) -> (r: Result<Vec<Term>, String>)
        ensures
            ({
                let catalog = courses.deep_view();
                let config = self.config_spec();
                match spec_validate(catalog, config.include_summer) {
                    Some(e) => r matches Err(err) && err@ == e,
                    None => match spec_sequence(catalog, config) {
                        Some(ts) => r matches Ok(terms) && terms.deep_view() == ts,
                        None => r matches Err(err) && err@ == "cannot complete schedule"@,
                    },
                }
            }),
    ;
}

/// The library's sequencer: holds the configuration it runs under.
pub struct Sequencer {
    config: SequenceConfig,
}

impl Sequencer {
    /// Assembles a sequencer from the configuration fields.
    pub fn new(
        include_summer: bool,
        starting_semester: Season,
        starting_year: u32,
        max_courses_per_term: u32,
    ) -> (r: Self)
        ensures
            r.config_spec() == (SequenceConfig {
                include_summer,
                starting_semester,
                starting_year,
                max_courses_per_term,
            }),
    {
        let config = SequenceConfig {
            include_summer,
            starting_semester,
            starting_year,
            max_courses_per_term,
        };
        Sequencer { config }
    }
}

impl Sequence for Sequencer {
    closed spec fn config_spec(&self) -> SequenceConfig {
        self.config
    }

    fn sequence(&self, courses: Vec<Course>) -> (r: Result<Vec<Term>, String>) {
        // Make sure we can in fact sequence the courses given the config
        if let Err(err) = validate_input(&courses, &self.config) {
            return Err(err);
        }
        sequence_courses(courses, self.config)
    }
}

} // verus!
