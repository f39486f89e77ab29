//! A binary inequality constraint between two named places: adjacent
//! regions of a map may not share a color.

use vstd::prelude::*;
use crate::atom::Atom;
use crate::assignment::Assignment;
use crate::csp::Constraint;

verus! {

/// Satisfied when its two places are not both colored yet, or carry
/// different colors.
#[derive(Clone)]
pub struct MapColoringConstraint {
    pub variables: Vec<String>,
}

impl MapColoringConstraint {
    /// An adjacency constraint between two places.
    pub fn new(place1: String, place2: String) -> (r: Self)
        ensures
            r.variables@.len() == 2,
            r.variables@[0]@ == place1@,
            r.variables@[1]@ == place2@,
    {
        let mut variables: Vec<String> = Vec::new();
        variables.push(place1);
        variables.push(place2);
        MapColoringConstraint { variables }
    }

    /// Partial-information vacuity, in its strongest form for this binary
    /// constraint: an assignment missing either place satisfies it.
    pub proof fn lemma_vacuous_on_missing_place(&self, a: Map<Seq<char>, Seq<char>>)
        requires
            !a.dom().contains(self.variables@[0]@) || !a.dom().contains(self.variables@[1]@),
        ensures
            Constraint::spec_satisfied(self, a),
    {
    }
}

impl Constraint<String, String> for MapColoringConstraint {
    open spec fn scope_view(&self) -> Seq<Seq<char>> {
        self.variables@.map_values(|v: String| v@)
    }

    open spec fn spec_satisfied(&self, a: Map<Seq<char>, Seq<char>>) -> bool {
        self.variables@.len() == 2 ==> !(a.dom().contains(self.variables@[0]@) && a.dom().contains(
            self.variables@[1]@,
        ) && a[self.variables@[0]@] == a[self.variables@[1]@])
    }

    fn get_variables(&self) -> (r: &Vec<String>) {
        &self.variables
    }

    fn satisfied(&self, assignment: &Assignment<String, String>) -> (r: bool) {
        if self.variables.len() != 2 {
            return true;
        }
        let c1 = assignment.get(&self.variables[0]);
        let c2 = assignment.get(&self.variables[1]);
        match (c1, c2) {
            (Some(place1_color), Some(place2_color)) => !place1_color.same(place2_color),
            _ => true,
        }
    }

    proof fn lemma_scope_local(&self, a: Map<Seq<char>, Seq<char>>, b: Map<Seq<char>, Seq<char>>) {
        if self.variables@.len() == 2 {
            assert(Constraint::scope_view(self)[0] == self.variables@[0]@);
            assert(Constraint::scope_view(self)[1] == self.variables@[1]@);
            assert(a.dom().contains(self.variables@[0]@) == b.dom().contains(
                self.variables@[0]@,
            ));
            assert(a.dom().contains(self.variables@[1]@) == b.dom().contains(
                self.variables@[1]@,
            ));
        }
    }

    proof fn lemma_unassigned_scope(&self, a: Map<Seq<char>, Seq<char>>) {
        if self.variables@.len() == 2 {
            assert(Constraint::scope_view(self)[0] == self.variables@[0]@);
            assert(!a.dom().contains(self.variables@[0]@));
        }
    }
}

} // verus!
