//! A constraint-satisfaction problem (CSP) solver: variables, a domain of
//! candidate values per variable, and constraints over subsets of variables.
//! `backtracking_search` finds an assignment of one value per variable that
//! satisfies every registered constraint, or reports that none exists.

pub mod atom;
pub mod assignment;
pub mod csp;
pub mod not_equal;
pub mod map_coloring;
