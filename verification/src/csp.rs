//! The CSP engine: the variable list, the domain of candidate values per
//! variable, an index from each variable to the constraints that reference
//! it, and the depth-first backtracking search.

use vstd::prelude::*;
use crate::atom::Atom;
use crate::assignment::Assignment;

verus! {

/// A configuration error, fatal to the caller: the model was built wrongly.
/// Unsatisfiability is not an error; the search reports it as `None`.
#[derive(Clone, Copy, Debug, PartialEq, Eq)]
pub enum CspError {
    /// A variable was given no domain entry at construction.
    MissingDomain,
    /// A registered constraint's scope names a variable the CSP does not have.
    UnknownVariable,
}

/// The capability a constraint offers: it declares which variables it
/// restricts (its scope) and evaluates to satisfied or violated on a partial
/// or complete assignment. The engine never knows a concrete constraint's
/// identity, only this capability.
pub trait Constraint<V: Atom, D: Atom>: Sized {
    /// The views of the variables this constraint restricts.
    spec fn scope_view(&self) -> Seq<<V as View>::V>;

    /// Whether the constraint holds of an assignment. A scope variable
    /// absent from the assignment is "not yet determined": only a genuine
    /// violation among the present ones makes this false.
    spec fn spec_satisfied(&self, a: Map<<V as View>::V, <D as View>::V>) -> bool;

    /// The fixed list of variables this constraint restricts.
    fn get_variables(&self) -> (r: &Vec<V>)
        ensures
            r@.map_values(|v: V| v@) == self.scope_view(),
    ;

    /// Evaluates the constraint against an assignment snapshot.
    fn satisfied(&self, assignment: &Assignment<V, D>) -> (r: bool)
        requires
            assignment.wf(),
        ensures
            r == self.spec_satisfied(assignment@),
    ;

    /// Satisfaction reads nothing but the assignment's restriction to the
    /// scope: two assignments that agree on every scope variable get the
    /// same verdict.
    proof fn lemma_scope_local(
        &self,
        a: Map<<V as View>::V, <D as View>::V>,
        b: Map<<V as View>::V, <D as View>::V>,
    )
        requires
            forall|i: int| 0 <= i < self.scope_view().len() ==> (a.dom().contains(
                #[trigger] self.scope_view()[i],
            ) == b.dom().contains(self.scope_view()[i]) && (a.dom().contains(
                self.scope_view()[i],
            ) ==> a[self.scope_view()[i]] == b[self.scope_view()[i]])),
        ensures
            self.spec_satisfied(a) == self.spec_satisfied(b),
    ;

    /// Vacuity on no information: an assignment that has determined none of
    /// the scope variables satisfies the constraint.
    proof fn lemma_unassigned_scope(&self, a: Map<<V as View>::V, <D as View>::V>)
        requires
            forall|i: int| 0 <= i < self.scope_view().len() ==> !a.dom().contains(
                #[trigger] self.scope_view()[i],
            ),
        ensures
            self.spec_satisfied(a),
    ;
}

/// The first domain list that an entry with the given key carries, as views.
pub open spec fn domain_lookup<V: Atom, D: Atom>(
    s: Seq<(V, Vec<D>)>,
    key: <V as View>::V,
) -> Option<Seq<<D as View>::V>>
    decreases s.len(),
{
    if s.len() == 0 {
        None
    } else if s[0].0@ == key {
        Some(s[0].1@.map_values(|d: D| d@))
    } else {
        domain_lookup(s.drop_first(), key)
    }
}

proof fn lemma_domain_lookup_at<V: Atom, D: Atom>(s: Seq<(V, Vec<D>)>, key: <V as View>::V, j: int)
    requires
        0 <= j < s.len(),
        s[j].0@ == key,
        forall|x: int| 0 <= x < j ==> s[x].0@ != key,
    ensures
        domain_lookup(s, key) == Some(s[j].1@.map_values(|d: D| d@)),
    decreases j,
{
    if j > 0 {
        assert(forall|x: int| 0 <= x < j - 1 ==> s.drop_first()[x] == s[x + 1]);
        lemma_domain_lookup_at(s.drop_first(), key, j - 1);
    }
}

proof fn lemma_domain_lookup_none<V: Atom, D: Atom>(s: Seq<(V, Vec<D>)>, key: <V as View>::V)
    requires
        forall|x: int| 0 <= x < s.len() ==> s[x].0@ != key,
    ensures
        domain_lookup(s, key) is None,
    decreases s.len(),
{
    if s.len() > 0 {
        lemma_domain_lookup_none(s.drop_first(), key);
    }
}

/// How many of the listed variables the assignment has not determined.
pub closed spec fn count_unassigned<K, W>(vs: Seq<K>, a: Map<K, W>) -> nat
    decreases vs.len(),
{
    if vs.len() == 0 {
        0nat
    } else {
        count_unassigned(vs.drop_last(), a) + (if a.dom().contains(vs.last()) {
            0nat
        } else {
            1nat
        })
    }
}

proof fn lemma_count_unassigned_mono<K, W>(vs: Seq<K>, a: Map<K, W>, v: K, d: W)
    ensures
        count_unassigned(vs, a.insert(v, d)) <= count_unassigned(vs, a),
    decreases vs.len(),
{
    if vs.len() > 0 {
        lemma_count_unassigned_mono(vs.drop_last(), a, v, d);
    }
}

proof fn lemma_count_unassigned_strict<K, W>(vs: Seq<K>, a: Map<K, W>, v: K, d: W)
    requires
        vs.contains(v),
        !a.dom().contains(v),
    ensures
        count_unassigned(vs, a.insert(v, d)) < count_unassigned(vs, a),
    decreases vs.len(),
{
    if vs.last() == v {
        lemma_count_unassigned_mono(vs.drop_last(), a, v, d);
    } else {
        let i: int = choose|i: int| 0 <= i < vs.len() && vs[i] == v;
        assert(vs.drop_last()[i] == vs[i]);
        lemma_count_unassigned_strict(vs.drop_last(), a, v, d);
    }
}

fn dup_values<D: Atom>(values: &Vec<D>) -> (r: Vec<D>)
    ensures
        r@.map_values(|d: D| d@) == values@.map_values(|d: D| d@),
{
    let n = values.len();
    let mut out: Vec<D> = Vec::new();
    let mut i: usize = 0;
    while i < n
        invariant
            n == values@.len(),
            0 <= i <= n,
            out@.len() == i,
            forall|x: int| 0 <= x < i ==> out@[x]@ == values@[x]@,
        decreases n - i,
    {
        out.push(values[i].dup());
        i += 1;
    }
    proof {
        assert(out@.map_values(|d: D| d@) =~= values@.map_values(|d: D| d@));
    }
    out
}

fn find_domain<V: Atom, D: Atom>(domains: &Vec<(V, Vec<D>)>, key: &V) -> (r: Option<usize>)
    ensures
        match r {
            Some(j) => j < domains@.len() && domains@[j as int].0@ == key@ && domain_lookup(
                domains@,
                key@,
            ) == Some(domains@[j as int].1@.map_values(|d: D| d@)),
            None => domain_lookup(domains@, key@) is None,
        },
{
    let n = domains.len();
    let mut j: usize = 0;
    while j < n
        invariant
            n == domains@.len(),
            0 <= j <= n,
            forall|x: int| 0 <= x < j ==> domains@[x].0@ != key@,
        decreases n - j,
    {
        if domains[j].0.same(key) {
            proof {
                lemma_domain_lookup_at(domains@, key@, j as int);
            }
            return Some(j);
        }
        j += 1;
    }
    proof {
        lemma_domain_lookup_none(domains@, key@);
    }
    None
}

/// The central entity: the ordered variable list, one ordered domain of
/// candidate values per variable, and the registered constraints, indexed
/// by integer handle under every variable of their scope.
pub struct CSP<V: Atom, D: Atom, C: Constraint<V, D>> {
    variables: Vec<V>,
    domains: Vec<Vec<D>>,
    constraint_list: Vec<C>,
    constraint_index: Vec<Vec<usize>>,
}

impl<V: Atom, D: Atom, C: Constraint<V, D>> CSP<V, D, C> {
    /// How many variables the CSP has.
    pub closed spec fn num_vars(&self) -> nat {
        self.variables@.len()
    }

    /// The view of the variable at a position of the stored order.
    pub closed spec fn var_at(&self, i: int) -> <V as View>::V {
        self.variables@[i]@
    }

    /// The views of the candidate values of the variable at a position, in
    /// domain-list order.
    pub closed spec fn domain_at(&self, i: int) -> Seq<<D as View>::V> {
        self.domains@[i]@.map_values(|d: D| d@)
    }

    /// How many constraints are registered.
    pub closed spec fn num_constraints(&self) -> nat {
        self.constraint_list@.len()
    }

    /// The registered constraint with a given handle, in registration order.
    pub closed spec fn constraint_at(&self, k: int) -> C {
        self.constraint_list@[k]
    }

    /// Whether some position of the variable list carries this view.
    pub open spec fn has_var(&self, v: <V as View>::V) -> bool {
        exists|i: int| 0 <= i < self.num_vars() && self.var_at(i) == v
    }

    /// Whether every registered constraint is satisfied by an assignment.
    pub open spec fn all_satisfied(&self, a: Map<<V as View>::V, <D as View>::V>) -> bool {
        forall|k: int|
            0 <= k < self.num_constraints() ==> (#[trigger] self.constraint_at(k)).spec_satisfied(a)
    }

    /// The views of the variables, in stored order.
    pub closed spec fn vseq(&self) -> Seq<<V as View>::V> {
        self.variables@.map_values(|v: V| v@)
    }

    /// Well-formed: the variables are pairwise distinct, every variable has
    /// a domain and an index entry, and the index is closed: a registered
    /// constraint is on the index entry of every variable of its scope.
    pub closed spec fn wf(&self) -> bool {
        &&& self.domains@.len() == self.variables@.len()
        &&& self.constraint_index@.len() == self.variables@.len()
        &&& forall|i: int, j: int|
            0 <= i < j < self.variables@.len() ==> self.variables@[i]@ != self.variables@[j]@
        &&& forall|i: int, t: int|
            0 <= i < self.constraint_index@.len() && 0 <= t < self.constraint_index@[i]@.len()
                ==> (#[trigger] self.constraint_index@[i]@[t]) < self.constraint_list@.len()
        &&& forall|i: int, k: int|
            0 <= i < self.variables@.len() && 0 <= k < self.constraint_list@.len() && (
            #[trigger] self.constraint_list@[k]).scope_view().contains(
                #[trigger] self.variables@[i]@,
            ) ==> exists|t: int|
                0 <= t < self.constraint_index@[i]@.len() && (
                #[trigger] self.constraint_index@[i]@[t]) == k
    }

    /// Every constraint on the index entry of the variable's position is
    /// satisfied by the assignment.
    spec fn spec_consistent(&self, v: <V as View>::V, a: Map<<V as View>::V, <D as View>::V>) -> bool {
        forall|i: int, t: int|
            0 <= i < self.variables@.len() && self.variables@[i]@ == v && 0 <= t
                < self.constraint_index@[i]@.len() ==> self.constraint_list@[(
            #[trigger] self.constraint_index@[i]@[t]) as int].spec_satisfied(a)
    }

    /// Builds a CSP from variables and a domain entry per variable. Fails
    /// with `MissingDomain` exactly when some variable has no entry; an
    /// empty domain list is legal input. The caller gives pairwise-distinct
    /// variables; no constraints are registered yet.
    pub fn new(variables: Vec<V>, domains: Vec<(V, Vec<D>)>) -> (res: Result<Self, CspError>)
        requires
            forall|i: int, j: int|
                0 <= i < j < variables@.len() ==> variables@[i]@ != variables@[j]@,
        ensures
            match res {
                Ok(c) => {
                    &&& c.wf()
                    &&& c.num_vars() == variables@.len()
                    &&& forall|i: int|
                        0 <= i < variables@.len() ==> c.var_at(i) == variables@[i]@
                    &&& forall|i: int|
                        0 <= i < variables@.len() ==> Some(#[trigger] c.domain_at(i))
                            == domain_lookup(domains@, variables@[i]@)
                    &&& c.num_constraints() == 0
                },
                Err(e) => {
                    &&& e == CspError::MissingDomain
                    &&& exists|i: int|
                        0 <= i < variables@.len() && domain_lookup(
                            domains@,
                            #[trigger] variables@[i]@,
                        ) is None
                },
            },
    {
        let n = variables.len();
        let mut doms: Vec<Vec<D>> = Vec::new();
        let mut index: Vec<Vec<usize>> = Vec::new();
        let mut i: usize = 0;
        while i < n
            invariant
                n == variables@.len(),
                0 <= i <= n,
                doms@.len() == i,
                index@.len() == i,
                forall|x: int|
                    0 <= x < i ==> Some((#[trigger] doms@[x])@.map_values(|d: D| d@))
                        == domain_lookup(domains@, variables@[x]@),
                forall|x: int| 0 <= x < i ==> index@[x]@.len() == 0,
            decreases n - i,
        {
            match find_domain(&domains, &variables[i]) {
                Some(j) => {
                    doms.push(dup_values(&domains[j].1));
                    index.push(Vec::new());
                },
                None => {
                    return Err(CspError::MissingDomain);
                },
            }
            i += 1;
        }
        let c = CSP {
            variables,
            domains: doms,
            constraint_list: Vec::new(),
            constraint_index: index,
        };
        Ok(c)
    }

    /// The position of the variable whose view equals the key's, if any.
    fn var_index(&self, key: &V) -> (r: Option<usize>)
        ensures
            match r {
                Some(i) => i < self.variables@.len() && self.variables@[i as int]@ == key@,
                None => !self.has_var(key@),
            },
    {
        let n = self.variables.len();
        let mut i: usize = 0;
        while i < n
            invariant
                n == self.variables@.len(),
                0 <= i <= n,
                forall|x: int| 0 <= x < i ==> self.variables@[x]@ != key@,
            decreases n - i,
        {
            if self.variables[i].same(key) {
                return Some(i);
            }
            i += 1;
        }
        None
    }

    /// Registers a constraint: on the index entry of every variable of its
    /// scope, the constraint's handle is appended. Fails with
    /// `UnknownVariable`, leaving the CSP unchanged, exactly when the scope
    /// names a variable the CSP does not have.
    pub fn add_constraint(&mut self, constraint: C) -> (res: Result<(), CspError>)
        requires
            old(self).wf(),
        ensures
            final(self).wf(),
            match res {
                Ok(()) => {
                    &&& forall|t: int|
                        0 <= t < constraint.scope_view().len() ==> old(self).has_var(
                            #[trigger] constraint.scope_view()[t],
                        )
                    &&& final(self).num_vars() == old(self).num_vars()
                    &&& forall|i: int|
                        0 <= i < old(self).num_vars() ==> final(self).var_at(i) == old(
                            self,
                        ).var_at(i)
                    &&& forall|i: int|
                        0 <= i < old(self).num_vars() ==> final(self).domain_at(i) == old(
                            self,
                        ).domain_at(i)
                    &&& final(self).num_constraints() == old(self).num_constraints() + 1
                    &&& forall|k: int|
                        0 <= k < old(self).num_constraints() ==> final(self).constraint_at(k)
                            == old(self).constraint_at(k)
                    &&& final(self).constraint_at(old(self).num_constraints() as int)
                        == constraint
                },
                Err(e) => {
                    &&& e == CspError::UnknownVariable
                    &&& exists|t: int|
                        0 <= t < constraint.scope_view().len() && !old(self).has_var(
                            #[trigger] constraint.scope_view()[t],
                        )
                    &&& *final(self) == *old(self)
                },
            },
    {
        let scope = constraint.get_variables();
        let m = scope.len();
        let mut ixs: Vec<usize> = Vec::new();
        let mut t: usize = 0;
        while t < m
            invariant
                *self == *old(self),
                self.wf(),
                scope@.map_values(|v: V| v@) == constraint.scope_view(),
                m == scope@.len(),
                m == constraint.scope_view().len(),
                0 <= t <= m,
                ixs@.len() == t,
                forall|x: int|
                    0 <= x < t ==> (#[trigger] ixs@[x]) < self.variables@.len()
                        && self.variables@[ixs@[x] as int]@ == constraint.scope_view()[x],
            decreases m - t,
        {
            match self.var_index(&scope[t]) {
                Some(i) => {
                    ixs.push(i);
                },
                None => {
                    proof {
                        assert(constraint.scope_view()[t as int] == scope@[t as int]@);
                    }
                    return Err(CspError::UnknownVariable);
                },
            }
            t += 1;
        }
        let ghost kk: int = self.constraint_list@.len() as int;
        let ghost gc: C = constraint;
        let handle = self.constraint_list.len();
        self.constraint_list.push(constraint);
        let mut t2: usize = 0;
        while t2 < m
            invariant
                old(self).wf(),
                self.variables@ == old(self).variables@,
                self.domains@ == old(self).domains@,
                self.constraint_list@ == old(self).constraint_list@.push(gc),
                kk == old(self).constraint_list@.len(),
                handle == kk,
                self.constraint_index@.len() == old(self).constraint_index@.len(),
                m == ixs@.len(),
                m == gc.scope_view().len(),
                0 <= t2 <= m,
                forall|x: int|
                    0 <= x < m ==> (#[trigger] ixs@[x]) < self.variables@.len()
                        && self.variables@[ixs@[x] as int]@ == gc.scope_view()[x],
                forall|i: int|
                    0 <= i < self.constraint_index@.len() ==> old(
                        self,
                    ).constraint_index@[i]@.is_prefix_of(#[trigger] self.constraint_index@[i]@),
                forall|i: int, u: int|
                    0 <= i < self.constraint_index@.len() && 0 <= u
                        < self.constraint_index@[i]@.len() ==> (
                    #[trigger] self.constraint_index@[i]@[u]) < self.constraint_list@.len(),
                forall|x: int|
                    0 <= x < t2 ==> self.constraint_index@[(#[trigger] ixs@[x]) as int]@.contains(
                        handle,
                    ),
            decreases m - t2,
        {
            let i: usize = ixs[t2];
            self.constraint_index[i].push(handle);
            proof {
                assert(self.constraint_index@[i as int]@.last() == handle);
                assert(self.constraint_index@[i as int]@.contains(handle));
            }
            t2 += 1;
        }
        proof {
            self.lemma_add_constraint_wf(*old(self), gc, ixs@, handle);
            assert forall|t: int| 0 <= t < gc.scope_view().len() implies old(self).has_var(
                #[trigger] gc.scope_view()[t],
            ) by {
                let i: int = ixs@[t] as int;
                assert(0 <= i < old(self).variables@.len());
                assert(old(self).var_at(i) == gc.scope_view()[t]);
            }
        }
        Ok(())
    }

    /// Every constraint indexed under the given variable is satisfied by the
    /// assignment; a variable with no registered constraints is trivially
    /// consistent.
    fn consistent(&self, variable: &V, assignment: &Assignment<V, D>) -> (r: bool)
        requires
            self.wf(),
            assignment.wf(),
        ensures
            r == self.spec_consistent(variable@, assignment@),
    {
        match self.var_index(variable) {
            None => {
                proof {
                    assert forall|i: int, t: int|
                        0 <= i < self.variables@.len() && self.variables@[i]@ == variable@ && 0 <= t
                            < self.constraint_index@[i]@.len() implies self.constraint_list@[(
                    #[trigger] self.constraint_index@[i]@[t]) as int].spec_satisfied(
                        assignment@,
                    ) by {
                        assert(self.var_at(i) == variable@);
                        assert(self.has_var(variable@));
                        assert(false);
                    }
                }
                true
            },
            Some(ix) => {
                let row = &self.constraint_index[ix];
                let m = row.len();
                let mut t: usize = 0;
                while t < m
                    invariant
                        self.wf(),
                        assignment.wf(),
                        (ix as int) < self.variables@.len(),
                        self.variables@[ix as int]@ == variable@,
                        row@ == self.constraint_index@[ix as int]@,
                        m == row@.len(),
                        0 <= t <= m,
                        forall|u: int|
                            0 <= u < t ==> self.constraint_list@[(#[trigger] row@[u]) as int].spec_satisfied(
                                assignment@,
                            ),
                    decreases m - t,
                {
                    let k = row[t];
                    if !self.constraint_list[k].satisfied(assignment) {
                        proof {
                            assert(self.constraint_index@[ix as int]@[t as int] == k);
                        }
                        return false;
                    }
                    t += 1;
                }
                proof {
                    assert forall|i: int, u: int|
                        0 <= i < self.variables@.len() && self.variables@[i]@ == variable@ && 0 <= u
                            < self.constraint_index@[i]@.len() implies self.constraint_list@[(
                    #[trigger] self.constraint_index@[i]@[u]) as int].spec_satisfied(
                        assignment@,
                    ) by {
                        if i < ix as int {
                            assert(self.variables@[i]@ != self.variables@[ix as int]@);
                        } else if (ix as int) < i {
                            assert(self.variables@[ix as int]@ != self.variables@[i]@);
                        }
                        assert(i == ix as int);
                        assert(row@[u] == self.constraint_index@[i]@[u]);
                    }
                }
                true
            },
        }
    }

    /// The position of the first variable, in stored order, that the
    /// assignment has not determined.
    fn first_unassigned(&self, assignment: &Assignment<V, D>) -> (r: Option<usize>)
        ensures
            match r {
                Some(i) => {
                    &&& (i as int) < self.num_vars()
                    &&& !assignment@.dom().contains(self.var_at(i as int))
                    &&& forall|j: int|
                        0 <= j < i ==> assignment@.dom().contains(#[trigger] self.var_at(j))
                },
                None => forall|i: int|
                    0 <= i < self.num_vars() ==> assignment@.dom().contains(
                        #[trigger] self.var_at(i),
                    ),
            },
    {
        let n = self.variables.len();
        let mut i: usize = 0;
        while i < n
            invariant
                n == self.variables@.len(),
                0 <= i <= n,
                forall|j: int| 0 <= j < i ==> assignment@.dom().contains(#[trigger] self.var_at(j)),
            decreases n - i,
        {
            if !assignment.contains_key(&self.variables[i]) {
                return Some(i);
            }
            i += 1;
        }
        None
    }

    /// Extending a fully consistent assignment at a CSP variable keeps every
    /// registered constraint satisfied, provided the constraints indexed
    /// under that variable accept the extension: a constraint whose scope
    /// has the variable was just rechecked, and one whose scope does not
    /// have it cannot see the change.
    proof fn lemma_extend_consistent(
        &self,
        a: Map<<V as View>::V, <D as View>::V>,
        v: <V as View>::V,
        d: <D as View>::V,
    )
        requires
            self.wf(),
            self.has_var(v),
            self.all_satisfied(a),
            self.spec_consistent(v, a.insert(v, d)),
        ensures
            self.all_satisfied(a.insert(v, d)),
    {
        let a2 = a.insert(v, d);
        assert forall|k: int|
            0 <= k < self.num_constraints() implies (#[trigger] self.constraint_at(k)).spec_satisfied(
            a2,
        ) by {
            let c = self.constraint_list@[k];
            if c.scope_view().contains(v) {
                let i: int = choose|i: int| 0 <= i < self.num_vars() && self.var_at(i) == v;
                assert(self.constraint_list@[k].scope_view().contains(self.variables@[i]@));
                let t: int = choose|t: int|
                    0 <= t < self.constraint_index@[i]@.len() && (
                    #[trigger] self.constraint_index@[i]@[t]) == k;
                assert(self.constraint_list@[(self.constraint_index@[i]@[t]) as int].spec_satisfied(
                    a2,
                ));
            } else {
                assert forall|x: int| 0 <= x < c.scope_view().len() implies (a.dom().contains(
                    #[trigger] c.scope_view()[x],
                ) == a2.dom().contains(c.scope_view()[x]) && (a.dom().contains(c.scope_view()[x])
                    ==> a[c.scope_view()[x]] == a2[c.scope_view()[x]])) by {
                    assert(c.scope_view()[x] != v);
                }
                c.lemma_scope_local(a, a2);
            }
        }
    }

    /// Vacuity at the start of a search: the empty assignment has determined
    /// no variable, so it satisfies every registered constraint.
    pub proof fn lemma_empty_all_satisfied(&self)
        ensures
            self.all_satisfied(Map::<<V as View>::V, <D as View>::V>::empty()),
    {
        let e = Map::<<V as View>::V, <D as View>::V>::empty();
        assert forall|k: int|
            0 <= k < self.num_constraints() implies (#[trigger] self.constraint_at(k)).spec_satisfied(
            e,
        ) by {
            self.constraint_at(k).lemma_unassigned_scope(e);
        }
    }

    /// The position of the first variable, at or after position `i` of the
    /// stored order, that the assignment has not determined.
    spec fn spec_first_unassigned_from(
        &self,
        a: Map<<V as View>::V, <D as View>::V>,
        i: int,
    ) -> Option<int>
        decreases self.vseq().len() - i
            when 0 <= i <= self.vseq().len()
    {
        if i >= self.vseq().len() {
            None
        } else if !a.dom().contains(self.vseq()[i]) {
            Some(i)
        } else {
            self.spec_first_unassigned_from(a, i + 1)
        }
    }

    proof fn lemma_first_unassigned_char(&self, a: Map<<V as View>::V, <D as View>::V>, i: int)
        requires
            0 <= i <= self.vseq().len(),
        ensures
            match self.spec_first_unassigned_from(a, i) {
                Some(j) => i <= j < self.vseq().len() && !a.dom().contains(self.vseq()[j]) && (
                forall|x: int| i <= x < j ==> a.dom().contains(#[trigger] self.vseq()[x])),
                None => forall|x: int|
                    i <= x < self.vseq().len() ==> a.dom().contains(#[trigger] self.vseq()[x]),
            },
        decreases self.vseq().len() - i,
    {
        if i < self.vseq().len() && a.dom().contains(self.vseq()[i]) {
            self.lemma_first_unassigned_char(a, i + 1);
        }
    }

    /// What the search returns, as a function of the model and the seed
    /// alone: repeated invocations with identical variables, domains,
    /// constraints and registration order return identical results.
    pub closed spec fn spec_search(&self, a: Map<<V as View>::V, <D as View>::V>) -> Option<
        Map<<V as View>::V, <D as View>::V>,
    >
        decreases count_unassigned(self.vseq(), a), 1int, 0int,
    {
        match self.spec_first_unassigned_from(a, 0) {
            None => Some(a),
            Some(ix) => self.spec_try_values(a, ix, self.domain_at(ix)),
        }
    }

    /// Tries the remaining candidate values for the variable at position
    /// `ix`, in domain-list order, and keeps the first solution found.
    spec fn spec_try_values(
        &self,
        a: Map<<V as View>::V, <D as View>::V>,
        ix: int,
        vals: Seq<<D as View>::V>,
    ) -> Option<Map<<V as View>::V, <D as View>::V>>
        decreases count_unassigned(self.vseq(), a), 0int, vals.len()
            when 0 <= ix < self.vseq().len() && !a.dom().contains(self.vseq()[ix])
    {
        if vals.len() == 0 {
            None
        } else {
            let a2 = a.insert(self.vseq()[ix], vals[0]);
            proof {
                if 0 <= ix < self.vseq().len() && !a.dom().contains(self.vseq()[ix]) {
                    assert(self.vseq().contains(self.vseq()[ix]));
                    lemma_count_unassigned_strict(self.vseq(), a, self.vseq()[ix], vals[0]);
                }
            }
            if self.spec_consistent(self.vseq()[ix], a2) {
                match self.spec_search(a2) {
                    Some(sol) => Some(sol),
                    None => self.spec_try_values(a, ix, vals.drop_first()),
                }
            } else {
                self.spec_try_values(a, ix, vals.drop_first())
            }
        }
    }

    /// Depth-first backtracking search with fail-fast pruning: extends the
    /// assignment one variable at a time, in stored variable order and
    /// domain-list order, pruning any extension the indexed constraints
    /// reject, and returns the first complete solution found, or `None`
    /// when the problem is unsatisfiable.
    ///
    /// The contract carries the searched-for guarantees: a returned solution
    /// determines every variable and nothing else, extends the assignment it
    /// was seeded with, draws every value it chose from the variable's
    /// domain, and — whenever the seed itself satisfied every registered
    /// constraint, as the empty seed vacuously does — satisfies every
    /// registered constraint; and a variable left undetermined with an
    /// empty domain forces `None`. The result equals `spec_search` on the
    /// views, a function of the model and the seed alone: the search is
    /// deterministic.
    pub fn backtracking_search(&self, assignment: Assignment<V, D>) -> (res: Option<
        Assignment<V, D>,
    >)
        requires
            self.wf(),
            assignment.wf(),
            forall|v: <V as View>::V| assignment@.dom().contains(v) ==> self.has_var(v),
        ensures
            match res {
                Some(s) => {
                    &&& s.wf()
                    &&& forall|i: int|
                        0 <= i < self.num_vars() ==> s@.dom().contains(#[trigger] self.var_at(i))
                    &&& forall|v: <V as View>::V| #[trigger] s@.dom().contains(v) ==> self.has_var(
                        v,
                    )
                    &&& forall|v: <V as View>::V| #[trigger]
                        assignment@.dom().contains(v) ==> s@.dom().contains(v) && s@[v]
                            == assignment@[v]
                    &&& forall|i: int|
                        0 <= i < self.num_vars() && !assignment@.dom().contains(self.var_at(i))
                            ==> self.domain_at(i).contains(s@[#[trigger] self.var_at(i)])
                    &&& self.all_satisfied(assignment@) ==> self.all_satisfied(s@)
                    &&& self.spec_search(assignment@) == Some(s@)
                },
                None => self.spec_search(assignment@) is None,
            },
            (exists|i: int|
                0 <= i < self.num_vars() && self.domain_at(i).len() == 0
                    && !assignment@.dom().contains(#[trigger] self.var_at(i))) ==> res is None,
        decreases count_unassigned(self.vseq(), assignment@),
    {
        let first_option = self.first_unassigned(&assignment);
        match first_option {
            None => {
                // every variable is determined: a complete solution
                proof {
                    self.lemma_first_unassigned_char(assignment@, 0);
                    if self.spec_first_unassigned_from(assignment@, 0) is Some {
                        let jj: int = self.spec_first_unassigned_from(assignment@, 0)->Some_0;
                        assert(self.vseq()[jj] == self.var_at(jj));
                        assert(assignment@.dom().contains(self.var_at(jj)));
                        assert(false);
                    }
                }
                Some(assignment)
            },
            Some(ix) => {
                let ghost v = self.var_at(ix as int);
                proof {
                    self.lemma_first_unassigned_char(assignment@, 0);
                    assert(self.vseq()[ix as int] == self.var_at(ix as int));
                    match self.spec_first_unassigned_from(assignment@, 0) {
                        None => {
                            assert(assignment@.dom().contains(self.vseq()[ix as int]));
                            assert(false);
                        },
                        Some(jj) => {
                            if jj < ix as int {
                                assert(self.vseq()[jj] == self.var_at(jj));
                                assert(assignment@.dom().contains(self.var_at(jj)));
                                assert(false);
                            } else if (ix as int) < jj {
                                assert(assignment@.dom().contains(self.vseq()[ix as int]));
                                assert(false);
                            }
                        },
                    }
                    assert(self.spec_first_unassigned_from(assignment@, 0) == Some(ix as int));
                    assert(self.spec_search(assignment@) == self.spec_try_values(
                        assignment@,
                        ix as int,
                        self.domain_at(ix as int),
                    ));
                    assert(self.domain_at(ix as int).skip(0) =~= self.domain_at(ix as int));
                }
                let dlen = self.domains[ix].len();
                let mut j: usize = 0;
                while j < dlen
                    invariant
                        self.wf(),
                        assignment.wf(),
                        forall|w: <V as View>::V|
                            assignment@.dom().contains(w) ==> self.has_var(w),
                        (ix as int) < self.num_vars(),
                        v == self.var_at(ix as int),
                        v == self.vseq()[ix as int],
                        !assignment@.dom().contains(v),
                        dlen == self.domains@[ix as int]@.len(),
                        0 <= j <= dlen,
                        self.spec_try_values(
                            assignment@,
                            ix as int,
                            self.domain_at(ix as int).skip(j as int),
                        ) == self.spec_search(assignment@),
                    decreases dlen - j,
                {
                    let ghost vals = self.domain_at(ix as int).skip(j as int);
                    let value = self.domains[ix][j].dup();
                    let ghost dv = value@;
                    let mut local_assignment = assignment.dup();
                    local_assignment.insert(self.variables[ix].dup(), value);
                    proof {
                        assert(local_assignment@ == assignment@.insert(v, dv));
                        assert(self.vseq()[ix as int] == v);
                        assert(self.vseq().contains(v));
                        lemma_count_unassigned_strict(self.vseq(), assignment@, v, dv);
                        assert(self.domain_at(ix as int)[j as int] == dv);
                        assert(self.domain_at(ix as int).contains(dv));
                        assert(vals.len() == dlen - j);
                        assert(vals[0] == dv);
                        assert(vals.drop_first() =~= self.domain_at(ix as int).skip(j as int + 1));
                    }
                    if self.consistent(&self.variables[ix], &local_assignment) {
                        let ghost glocal = local_assignment@;
                        proof {
                            if self.all_satisfied(assignment@) {
                                self.lemma_extend_consistent(assignment@, v, dv);
                            }
                        }
                        let result = self.backtracking_search(local_assignment);
                        if result.is_some() {
                            proof {
                                let s = result->Some_0;
                                assert forall|i: int|
                                    0 <= i < self.num_vars() && !assignment@.dom().contains(
                                        self.var_at(i),
                                    ) implies self.domain_at(i).contains(
                                    s@[#[trigger] self.var_at(i)],
                                ) by {
                                    if i == ix as int {
                                        assert(glocal.dom().contains(v));
                                        assert(s@[v] == glocal[v]);
                                    } else {
                                        if i < ix as int {
                                            assert(self.variables@[i]@ != self.variables@[ix as int]@);
                                        } else {
                                            assert(self.variables@[ix as int]@ != self.variables@[i]@);
                                        }
                                        assert(!glocal.dom().contains(self.var_at(i)));
                                    }
                                }
                                assert forall|w: <V as View>::V| #[trigger]
                                    assignment@.dom().contains(w) implies s@.dom().contains(w)
                                    && s@[w] == assignment@[w] by {
                                    assert(glocal.dom().contains(w));
                                    assert(glocal[w] == assignment@[w]);
                                    assert(s@.dom().contains(w) && s@[w] == glocal[w]);
                                }
                                if exists|i: int|
                                    0 <= i < self.num_vars() && self.domain_at(i).len() == 0
                                        && !assignment@.dom().contains(#[trigger] self.var_at(i)) {
                                    let i: int = choose|i: int|
                                        0 <= i < self.num_vars() && self.domain_at(i).len() == 0
                                            && !assignment@.dom().contains(
                                            #[trigger] self.var_at(i),
                                        );
                                    assert(self.domain_at(i).contains(s@[self.var_at(i)]));
                                    assert(false);
                                }
                                // the spec-level search picks this very branch
                                assert(self.spec_search(glocal) == Some(s@));
                                assert(self.spec_try_values(assignment@, ix as int, vals) == Some(
                                    s@,
                                ));
                            }
                            return result;
                        } else {
                            proof {
                                // this candidate fails downstream at the
                                // spec level too: move to the next one
                                assert(self.spec_search(glocal) is None);
                                assert(self.spec_try_values(assignment@, ix as int, vals)
                                    == self.spec_try_values(
                                    assignment@,
                                    ix as int,
                                    vals.drop_first(),
                                ));
                            }
                        }
                    } else {
                        proof {
                            // the indexed constraints reject this candidate:
                            // the spec-level search prunes it as well
                            assert(!self.spec_consistent(
                                self.vseq()[ix as int],
                                assignment@.insert(v, dv),
                            ));
                            assert(self.spec_try_values(assignment@, ix as int, vals)
                                == self.spec_try_values(assignment@, ix as int, vals.drop_first()));
                        }
                    }
                    j += 1;
                }
                proof {
                    assert(self.domain_at(ix as int).skip(dlen as int).len() == 0);
                    assert(self.spec_search(assignment@) is None);
                }
                None
            },
        }
    }

    /// After registration, the extended index is still well-formed and
    /// closed over the grown constraint list.
    proof fn lemma_add_constraint_wf(&self, prev: Self, constraint: C, ixs: Seq<usize>, handle: usize)
        requires
            prev.wf(),
            self.variables@ == prev.variables@,
            self.domains@ == prev.domains@,
            self.constraint_list@ == prev.constraint_list@.push(constraint),
            handle == prev.constraint_list@.len(),
            self.constraint_index@.len() == prev.constraint_index@.len(),
            ixs.len() == constraint.scope_view().len(),
            forall|x: int|
                0 <= x < ixs.len() ==> (#[trigger] ixs[x]) < self.variables@.len()
                    && self.variables@[ixs[x] as int]@ == constraint.scope_view()[x],
            forall|i: int|
                0 <= i < self.constraint_index@.len() ==> prev.constraint_index@[i]@.is_prefix_of(
                    #[trigger] self.constraint_index@[i]@,
                ),
            forall|i: int, u: int|
                0 <= i < self.constraint_index@.len() && 0 <= u < self.constraint_index@[i]@.len()
                    ==> (#[trigger] self.constraint_index@[i]@[u]) < self.constraint_list@.len(),
            forall|x: int|
                0 <= x < ixs.len() ==> self.constraint_index@[(#[trigger] ixs[x]) as int]@.contains(
                    handle,
                ),
        ensures
            self.wf(),
    {
        assert forall|i: int, k: int|
            0 <= i < self.variables@.len() && 0 <= k < self.constraint_list@.len() && (
            #[trigger] self.constraint_list@[k]).scope_view().contains(
                #[trigger] self.variables@[i]@,
            ) implies exists|t: int|
            0 <= t < self.constraint_index@[i]@.len() && (#[trigger] self.constraint_index@[i]@[t])
                == k by {
            if k < prev.constraint_list@.len() {
                assert(self.constraint_list@[k] == prev.constraint_list@[k]);
                assert(prev.constraint_list@[k].scope_view().contains(prev.variables@[i]@));
                let t: int = choose|t: int|
                    0 <= t < prev.constraint_index@[i]@.len() && (
                    #[trigger] prev.constraint_index@[i]@[t]) == k;
                assert(self.constraint_index@[i]@[t] == prev.constraint_index@[i]@[t]);
            } else {
                assert(k == handle as int);
                assert(self.constraint_list@[k] == constraint);
                let x: int = choose|x: int|
                    0 <= x < constraint.scope_view().len() && constraint.scope_view()[x]
                        == self.variables@[i]@;
                assert(self.variables@[ixs[x] as int]@ == self.variables@[i]@);
                let xi: int = ixs[x] as int;
                if xi < i {
                    assert(prev.variables@[xi]@ != prev.variables@[i]@);
                } else if i < xi {
                    assert(prev.variables@[i]@ != prev.variables@[xi]@);
                }
                assert(xi == i);
                assert(self.constraint_index@[i]@.contains(handle));
                let t: int = choose|t: int|
                    0 <= t < self.constraint_index@[i]@.len() && self.constraint_index@[i]@[t]
                        == handle;
                assert(self.constraint_index@[i]@[t] == k);
            }
        }
    }
}

} // verus!
