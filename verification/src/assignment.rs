//! Partial candidate solutions: a transient mapping from variables to chosen
//! domain values, complete when it covers every variable of the CSP.

use vstd::prelude::*;
use crate::atom::Atom;

verus! {

/// A partial or complete mapping from variables to domain values, stored as
/// a list of entries with pairwise-distinct keys. Its mathematical content,
/// the view, is the `Map` from variable views to value views.
#[derive(Debug, PartialEq, Eq)]
pub struct Assignment<V: Atom, D: Atom> {
    entries: Vec<(V, D)>,
}

/// The map that a list of entries describes; a later entry for a key wins,
/// though a well-formed assignment never holds two entries for one key.
spec fn entry_map<V: Atom, D: Atom>(s: Seq<(V, D)>) -> Map<<V as View>::V, <D as View>::V>
    decreases s.len(),
{
    if s.len() == 0 {
        Map::<<V as View>::V, <D as View>::V>::empty()
    } else {
        entry_map(s.drop_last()).insert(s.last().0@, s.last().1@)
    }
}

/// A key is in the map exactly when some entry carries it.
proof fn lemma_entry_map_contains<V: Atom, D: Atom>(s: Seq<(V, D)>, k: <V as View>::V)
    ensures
        entry_map(s).dom().contains(k) <==> exists|i: int| 0 <= i < s.len() && s[i].0@ == k,
    decreases s.len(),
{
    if s.len() > 0 {
        lemma_entry_map_contains(s.drop_last(), k);
        if s.last().0@ == k {
            assert(s[s.len() - 1].0@ == k);
        } else if exists|i: int| 0 <= i < s.len() && s[i].0@ == k {
            let i: int = choose|i: int| 0 <= i < s.len() && s[i].0@ == k;
            assert(s.drop_last()[i] == s[i]);
        }
    }
}

/// With distinct keys, each entry gives the map's value at its key.
proof fn lemma_entry_map_at<V: Atom, D: Atom>(s: Seq<(V, D)>, i: int)
    requires
        forall|p: int, q: int| 0 <= p < q < s.len() ==> s[p].0@ != s[q].0@,
        0 <= i < s.len(),
    ensures
        entry_map(s).dom().contains(s[i].0@),
        entry_map(s)[s[i].0@] == s[i].1@,
    decreases s.len(),
{
    if i == s.len() - 1 {
    } else {
        assert(s.drop_last()[i] == s[i]);
        lemma_entry_map_at(s.drop_last(), i);
        assert(s[i].0@ != s[s.len() - 1].0@);
    }
}

/// With distinct keys, the map has exactly one element per entry.
proof fn lemma_entry_map_len<V: Atom, D: Atom>(s: Seq<(V, D)>)
    requires
        forall|p: int, q: int| 0 <= p < q < s.len() ==> s[p].0@ != s[q].0@,
    ensures
        entry_map(s).dom().finite(),
        entry_map(s).dom().len() == s.len(),
    decreases s.len(),
{
    if s.len() > 0 {
        lemma_entry_map_len(s.drop_last());
        lemma_entry_map_contains(s.drop_last(), s.last().0@);
        assert(forall|i: int| 0 <= i < s.len() - 1 ==> s.drop_last()[i] == s[i]);
        assert(!entry_map(s.drop_last()).dom().contains(s.last().0@));
    }
}

/// Appending an entry inserts its pair into the map.
proof fn lemma_entry_map_push<V: Atom, D: Atom>(s: Seq<(V, D)>, p: (V, D))
    ensures
        entry_map(s.push(p)) == entry_map(s).insert(p.0@, p.1@),
{
    assert(s.push(p).drop_last() =~= s);
    assert(s.push(p).last() == p);
}

/// Replacing the entry that carries a key overwrites the map at that key.
proof fn lemma_entry_map_update<V: Atom, D: Atom>(s: Seq<(V, D)>, i: int, p: (V, D))
    requires
        forall|a: int, b: int| 0 <= a < b < s.len() ==> s[a].0@ != s[b].0@,
        0 <= i < s.len(),
        p.0@ == s[i].0@,
    ensures
        entry_map(s.update(i, p)) == entry_map(s).insert(p.0@, p.1@),
    decreases s.len(),
{
    let t = s.update(i, p);
    if i == s.len() - 1 {
        assert(t.drop_last() =~= s.drop_last());
        assert(t.last() == p);
        assert(entry_map(s.drop_last()).insert(p.0@, p.1@) =~= entry_map(s).insert(p.0@, p.1@));
    } else {
        assert(t.drop_last() =~= s.drop_last().update(i, p));
        assert(t.last() == s.last());
        assert(forall|a: int| 0 <= a < s.len() - 1 ==> s.drop_last()[a] == s[a]);
        lemma_entry_map_update(s.drop_last(), i, p);
        // the final insert of the unchanged last entry commutes with the
        // overwrite at the distinct key p.0@
        assert(s.last().0@ != p.0@);
        assert(entry_map(s.drop_last()).insert(p.0@, p.1@).insert(s.last().0@, s.last().1@)
            =~= entry_map(s.drop_last()).insert(s.last().0@, s.last().1@).insert(p.0@, p.1@));
    }
}

impl<V: Atom, D: Atom> View for Assignment<V, D> {
    type V = Map<<V as View>::V, <D as View>::V>;

    closed spec fn view(&self) -> Self::V {
        entry_map(self.entries@)
    }
}

impl<V: Atom, D: Atom> Assignment<V, D> {
    /// Well-formed: no two entries carry the same variable.
    pub closed spec fn wf(&self) -> bool {
        forall|i: int, j: int| 0 <= i < j < self.entries@.len() ==> self.entries@[i].0@
            != self.entries@[j].0@
    }

    /// The empty assignment.
    pub fn new() -> (r: Self)
        ensures
            r.wf(),
            r@ == Map::<<V as View>::V, <D as View>::V>::empty(),
    {
        Assignment { entries: Vec::new() }
    }

    /// How many variables are assigned.
    pub fn len(&self) -> (r: usize)
        requires
            self.wf(),
        ensures
            r == self@.dom().len(),
    {
        proof {
            lemma_entry_map_len(self.entries@);
        }
        self.entries.len()
    }

    /// Whether `key` is assigned.
    pub fn contains_key(&self, key: &V) -> (r: bool)
        ensures
            r == self@.dom().contains(key@),
    {
        let n = self.entries.len();
        let mut i: usize = 0;
        while i < n
            invariant
                n == self.entries@.len(),
                0 <= i <= n,
                forall|j: int| 0 <= j < i ==> self.entries@[j].0@ != key@,
            decreases n - i,
        {
            if self.entries[i].0.same(key) {
                proof {
                    lemma_entry_map_contains(self.entries@, key@);
                }
                return true;
            }
            i += 1;
        }
        proof {
            lemma_entry_map_contains(self.entries@, key@);
        }
        false
    }

    /// The value assigned to `key`, if any.
    pub fn get(&self, key: &V) -> (r: Option<&D>)
        requires
            self.wf(),
        ensures
            match r {
                Some(d) => self@.dom().contains(key@) && d@ == self@[key@],
                None => !self@.dom().contains(key@),
            },
    {
        let n = self.entries.len();
        let mut i: usize = 0;
        while i < n
            invariant
                self.wf(),
                n == self.entries@.len(),
                0 <= i <= n,
                forall|j: int| 0 <= j < i ==> self.entries@[j].0@ != key@,
            decreases n - i,
        {
            if self.entries[i].0.same(key) {
                proof {
                    lemma_entry_map_at(self.entries@, i as int);
                }
                return Some(&self.entries[i].1);
            }
            i += 1;
        }
        proof {
            lemma_entry_map_contains(self.entries@, key@);
        }
        None
    }

    /// Binds `key` to `value`, replacing any earlier binding of `key`.
    pub fn insert(&mut self, key: V, value: D)
        requires
            old(self).wf(),
        ensures
            final(self).wf(),
            final(self)@ == old(self)@.insert(key@, value@),
    {
        let n = self.entries.len();
        let mut i: usize = 0;
        while i < n
            invariant
                self == old(self),
                self.wf(),
                n == self.entries@.len(),
                0 <= i <= n,
                forall|j: int| 0 <= j < i ==> self.entries@[j].0@ != key@,
            decreases n - i,
        {
            if self.entries[i].0.same(&key) {
                proof {
                    lemma_entry_map_update(self.entries@, i as int, (key, value));
                }
                self.entries[i] = (key, value);
                return ;
            }
            i += 1;
        }
        proof {
            lemma_entry_map_push(self.entries@, (key, value));
        }
        self.entries.push((key, value));
    }

    /// An independent copy with the same content: each search branch works
    /// on its own copy, so no two branches share an assignment.
    pub fn dup(&self) -> (r: Self)
        requires
            self.wf(),
        ensures
            r.wf(),
            r@ == self@,
    {
        let n = self.entries.len();
        let mut out: Vec<(V, D)> = Vec::new();
        let mut i: usize = 0;
        while i < n
            invariant
                self.wf(),
                n == self.entries@.len(),
                0 <= i <= n,
                out@.len() == i,
                forall|j: int| 0 <= j < i ==> out@[j].0@ == self.entries@[j].0@ && out@[j].1@
                    == self.entries@[j].1@,
            decreases n - i,
        {
            let k = self.entries[i].0.dup();
            let v = self.entries[i].1.dup();
            out.push((k, v));
            i += 1;
        }
        proof {
            lemma_entry_map_same(out@, self.entries@);
        }
        Assignment { entries: out }
    }
}

/// Entry lists equal view-by-view describe the same map.
proof fn lemma_entry_map_same<V: Atom, D: Atom>(s: Seq<(V, D)>, t: Seq<(V, D)>)
    requires
        s.len() == t.len(),
        forall|i: int| 0 <= i < s.len() ==> s[i].0@ == t[i].0@ && s[i].1@ == t[i].1@,
    ensures
        entry_map(s) == entry_map(t),
    decreases s.len(),
{
    if s.len() > 0 {
        assert(forall|i: int| 0 <= i < s.len() - 1 ==> s.drop_last()[i] == s[i]);
        assert(forall|i: int| 0 <= i < t.len() - 1 ==> t.drop_last()[i] == t[i]);
        lemma_entry_map_same(s.drop_last(), t.drop_last());
    }
}

} // verus!
