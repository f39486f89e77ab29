//! The canonical all-different constraint: satisfied exactly when the values
//! assigned to its scope variables are pairwise distinct.

use vstd::prelude::*;
use crate::atom::Atom;
use crate::assignment::Assignment;
use crate::csp::Constraint;

verus! {

/// Satisfied when no two of its scope variables carry the same value; scope
/// variables the assignment has not determined yet do not count.
#[derive(Clone)]
pub struct NotEqualConstraint<V: Atom> {
    pub variables: Vec<V>,
}

impl<V: Atom> NotEqualConstraint<V> {
    /// A not-equal constraint over the given variables; the scope of a
    /// constraint is never empty.
    pub fn new(variables: Vec<V>) -> (r: Self)
        requires
            variables@.len() > 0,
        ensures
            r.variables == variables,
    {
        NotEqualConstraint { variables }
    }

    /// Partial-information vacuity, as far as it holds of this variant: an
    /// assignment in which no two distinct scope positions are determined
    /// satisfies the constraint. (An assignment that already holds a clash
    /// between two determined scope variables stays violated however many
    /// others are missing.)
    pub proof fn lemma_vacuous_on_lone_assignment<D: Atom>(
        &self,
        a: Map<<V as View>::V, <D as View>::V>,
    )
        requires
            forall|p: int, q: int|
                0 <= p < self.variables@.len() && 0 <= q < self.variables@.len() && p != q
                    ==> !(a.dom().contains(#[trigger] self.variables@[p]@) && a.dom().contains(
                    #[trigger] self.variables@[q]@,
                )),
        ensures
            Constraint::<V, D>::spec_satisfied(self, a),
    {
    }
}

impl<V: Atom, D: Atom> Constraint<V, D> for NotEqualConstraint<V> {
    open spec fn scope_view(&self) -> Seq<<V as View>::V> {
        self.variables@.map_values(|v: V| v@)
    }

    open spec fn spec_satisfied(&self, a: Map<<V as View>::V, <D as View>::V>) -> bool {
        forall|p: int, q: int|
            0 <= p < self.variables@.len() && 0 <= q < self.variables@.len() && p != q
                && a.dom().contains(#[trigger] self.variables@[p]@) && a.dom().contains(
                #[trigger] self.variables@[q]@,
            ) ==> a[self.variables@[p]@] != a[self.variables@[q]@]
    }

    fn get_variables(&self) -> (r: &Vec<V>) {
        proof {
            assert(self.variables@.map_values(|v: V| v@) =~= self.variables@.map_values(
                |v: V| v@,
            ));
        }
        &self.variables
    }

    fn satisfied(&self, assignment: &Assignment<V, D>) -> (r: bool) {
        let n = self.variables.len();
        let mut p: usize = 0;
        while p < n
            invariant
                assignment.wf(),
                n == self.variables@.len(),
                0 <= p <= n,
                forall|p0: int, q0: int|
                    0 <= p0 < p && 0 <= q0 < n && p0 != q0 && assignment@.dom().contains(
                        #[trigger] self.variables@[p0]@,
                    ) && assignment@.dom().contains(#[trigger] self.variables@[q0]@)
                        ==> assignment@[self.variables@[p0]@] != assignment@[self.variables@[q0]@],
            decreases n - p,
        {
            if let Some(vp) = assignment.get(&self.variables[p]) {
                let mut q: usize = 0;
                while q < n
                    invariant
                        assignment.wf(),
                        n == self.variables@.len(),
                        0 <= p < n,
                        0 <= q <= n,
                        assignment@.dom().contains(self.variables@[p as int]@),
                        vp@ == assignment@[self.variables@[p as int]@],
                        forall|q0: int|
                            0 <= q0 < q && q0 != p && assignment@.dom().contains(
                                #[trigger] self.variables@[q0]@,
                            ) ==> assignment@[self.variables@[p as int]@]
                                != assignment@[self.variables@[q0]@],
                    decreases n - q,
                {
                    if q != p {
                        if let Some(vq) = assignment.get(&self.variables[q]) {
                            if vp.same(vq) {
                                return false;
                            }
                        }
                    }
                    q += 1;
                }
            }
            p += 1;
        }
        true
    }

    proof fn lemma_scope_local(
        &self,
        a: Map<<V as View>::V, <D as View>::V>,
        b: Map<<V as View>::V, <D as View>::V>,
    ) {
        if Constraint::<V, D>::spec_satisfied(self, a) {
            assert forall|p: int, q: int|
                0 <= p < self.variables@.len() && 0 <= q < self.variables@.len() && p != q
                    && b.dom().contains(#[trigger] self.variables@[p]@) && b.dom().contains(
                    #[trigger] self.variables@[q]@,
                ) implies b[self.variables@[p]@] != b[self.variables@[q]@] by {
                assert(Constraint::<V, D>::scope_view(self)[p] == self.variables@[p]@);
                assert(Constraint::<V, D>::scope_view(self)[q] == self.variables@[q]@);
                assert(a.dom().contains(self.variables@[p]@));
                assert(a.dom().contains(self.variables@[q]@));
            }
        }
        if Constraint::<V, D>::spec_satisfied(self, b) {
            assert forall|p: int, q: int|
                0 <= p < self.variables@.len() && 0 <= q < self.variables@.len() && p != q
                    && a.dom().contains(#[trigger] self.variables@[p]@) && a.dom().contains(
                    #[trigger] self.variables@[q]@,
                ) implies a[self.variables@[p]@] != a[self.variables@[q]@] by {
                assert(Constraint::<V, D>::scope_view(self)[p] == self.variables@[p]@);
                assert(Constraint::<V, D>::scope_view(self)[q] == self.variables@[q]@);
                assert(b.dom().contains(self.variables@[p]@));
                assert(b.dom().contains(self.variables@[q]@));
            }
        }
    }

    proof fn lemma_unassigned_scope(&self, a: Map<<V as View>::V, <D as View>::V>) {
        assert forall|i: int| 0 <= i < self.variables@.len() implies !a.dom().contains(
            #[trigger] self.variables@[i]@,
        ) by {
            assert(Constraint::<V, D>::scope_view(self)[i] == self.variables@[i]@);
        }
    }
}

} // verus!
