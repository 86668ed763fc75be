//! Abstract state of the value-set analysis: a mapping from scalars to
//! lattice values plus an abstract memory sub-mapping from concrete
//! addresses to lattice values, both bounded by `max`.

use vstd::prelude::*;
use crate::il::{Constant, Expression, Scalar, UnOp, scalar_lt, scalar_less};
use crate::lattice::{
    LatticeValue, LatticeView, lemma_join_upper_bound, lemma_sorted_strict_card,
    lemma_sorted_strict_same_set, spec_join, spec_lattice_binop, spec_lattice_unop, sorted_strict,
    all_wf, view_le,
};
use crate::error::Error;

verus! {

/// The mapping an association sequence denotes: later entries override
/// earlier ones.
pub open spec fn assoc_map<K>(s: Seq<(K, LatticeValue)>) -> Map<K, LatticeView>
    decreases s.len(),
{
    if s.len() == 0 {
        Map::empty()
    } else {
        assoc_map(s.drop_last()).insert(s.last().0, s.last().1@)
    }
}

/// No key occurs twice.
pub open spec fn distinct_keys<K>(s: Seq<(K, LatticeValue)>) -> bool {
    forall|i: int, j: int| 0 <= i < j < s.len() ==> (#[trigger] s[i]).0 != (#[trigger] s[j]).0
}

/// A key is in the denoted mapping exactly when some entry carries it,
/// and the domain is finite.
pub proof fn lemma_assoc_map_dom<K>(s: Seq<(K, LatticeValue)>)
    ensures
        assoc_map(s).dom().finite(),
        forall|k: K|
            #[trigger] assoc_map(s).contains_key(k) <==> exists|i: int|
                0 <= i < s.len() && (#[trigger] s[i]).0 == k,
    decreases s.len(),
{
    if s.len() == 0 {
    } else {
        lemma_assoc_map_dom(s.drop_last());
        assert forall|k: K| #[trigger] assoc_map(s).contains_key(k) implies exists|i: int|
            0 <= i < s.len() && (#[trigger] s[i]).0 == k by {
            if k == s.last().0 {
                assert(s[s.len() - 1].0 == k);
            } else {
                let i = choose|i: int| 0 <= i < s.len() - 1 && (#[trigger] s.drop_last()[i]).0 == k;
                assert(s[i].0 == k);
            }
        }
        assert forall|k: K|
            (exists|i: int| 0 <= i < s.len() && (#[trigger] s[i]).0 == k) implies #[trigger]
            assoc_map(s).contains_key(k) by {
            let i = choose|i: int| 0 <= i < s.len() && (#[trigger] s[i]).0 == k;
            if i < s.len() - 1 {
                assert(s.drop_last()[i].0 == k);
            }
        }
    }
}

/// With distinct keys, each entry's value is the mapping's value.
pub proof fn lemma_assoc_map_index<K>(s: Seq<(K, LatticeValue)>)
    requires
        distinct_keys(s),
    ensures
        forall|i: int|
            0 <= i < s.len() ==> assoc_map(s).contains_key((#[trigger] s[i]).0) && assoc_map(s)[
                s[i].0] == s[i].1@,
    decreases s.len(),
{
    lemma_assoc_map_dom(s);
    if s.len() > 0 {
        lemma_assoc_map_index(s.drop_last());
        assert forall|i: int| 0 <= i < s.len() implies assoc_map(s).contains_key((
            #[trigger] s[i]).0) && assoc_map(s)[s[i].0] == s[i].1@ by {
            if i < s.len() - 1 {
                assert(s.drop_last()[i] == s[i]);
                assert(s[i].0 != s.last().0);
            }
        }
    }
}

/// Two association sequences with the same keys and the same value views
/// denote the same mapping.
pub proof fn lemma_assoc_map_congruence<K>(s: Seq<(K, LatticeValue)>, t: Seq<(K, LatticeValue)>)
    requires
        s.len() == t.len(),
        forall|i: int|
            0 <= i < s.len() ==> (#[trigger] s[i]).0 == (#[trigger] t[i]).0 && s[i].1@ == t[i].1@,
    ensures
        assoc_map(s) == assoc_map(t),
    decreases s.len(),
{
    if s.len() > 0 {
        lemma_assoc_map_congruence(s.drop_last(), t.drop_last());
        assert(s.last().0 == t.last().0 && s.last().1@ == t.last().1@);
    }
}

/// Two key-sorted association sequences denoting the same mapping are
/// equal entry by entry (keys identical, value views identical): the
/// sorted table is a canonical representation of the mapping.
pub proof fn lemma_assoc_canonical<K>(
    s: Seq<(K, LatticeValue)>,
    t: Seq<(K, LatticeValue)>,
    lt: spec_fn(K, K) -> bool,
)
    requires
        forall|i: int, j: int| 0 <= i < j < s.len() ==> lt((#[trigger] s[i]).0, (#[trigger] s[j]).0),
        forall|i: int, j: int| 0 <= i < j < t.len() ==> lt((#[trigger] t[i]).0, (#[trigger] t[j]).0),
        forall|a: K, b: K| #[trigger] lt(a, b) ==> a != b && !lt(b, a),
        forall|a: K, b: K| a != b ==> #[trigger] lt(a, b) || #[trigger] lt(b, a),
        assoc_map(s) == assoc_map(t),
    ensures
        s.len() == t.len(),
        forall|i: int| 0 <= i < s.len() ==> (#[trigger] s[i]).0 == t[i].0 && s[i].1@ == t[i].1@,
    decreases s.len(),
{
    lemma_assoc_map_dom(s);
    lemma_assoc_map_dom(t);
    if s.len() == 0 {
        if t.len() > 0 {
            assert(t[t.len() - 1].0 == t.last().0);
            assert(assoc_map(t).contains_key(t.last().0));
            assert(assoc_map(s).contains_key(t.last().0));
            let i = choose|i: int| 0 <= i < s.len() && (#[trigger] s[i]).0 == t.last().0;
        }
    } else if t.len() == 0 {
        assert(s[s.len() - 1].0 == s.last().0);
        assert(assoc_map(s).contains_key(s.last().0));
        assert(assoc_map(t).contains_key(s.last().0));
        let i = choose|i: int| 0 <= i < t.len() && (#[trigger] t[i]).0 == s.last().0;
    } else {
        let ks = s.last().0;
        let kt = t.last().0;
        assert(s[s.len() - 1].0 == ks);
        assert(assoc_map(s).contains_key(ks));
        assert(assoc_map(t).contains_key(ks));
        let j = choose|j: int| 0 <= j < t.len() && (#[trigger] t[j]).0 == ks;
        assert(t[t.len() - 1].0 == kt);
        assert(assoc_map(t).contains_key(kt));
        assert(assoc_map(s).contains_key(kt));
        let i = choose|i: int| 0 <= i < s.len() && (#[trigger] s[i]).0 == kt;
        if j < t.len() - 1 {
            assert(lt(ks, kt));
            if i < s.len() - 1 {
                assert(lt(kt, ks));
            }
            assert(false);
        }
        assert(ks == kt);
        assert(distinct_keys(s)) by {
            assert forall|i1: int, j1: int| 0 <= i1 < j1 < s.len() implies (#[trigger] s[i1]).0
                != (#[trigger] s[j1]).0 by {
                assert(lt(s[i1].0, s[j1].0));
            }
        }
        assert(distinct_keys(t)) by {
            assert forall|i1: int, j1: int| 0 <= i1 < j1 < t.len() implies (#[trigger] t[i1]).0
                != (#[trigger] t[j1]).0 by {
                assert(lt(t[i1].0, t[j1].0));
            }
        }
        lemma_assoc_map_index(s);
        lemma_assoc_map_index(t);
        assert(assoc_map(s)[ks] == s.last().1@);
        assert(assoc_map(t)[ks] == t.last().1@);
        let s2 = s.drop_last();
        let t2 = t.drop_last();
        lemma_assoc_map_dom(s2);
        lemma_assoc_map_dom(t2);
        assert(assoc_map(s2) =~= assoc_map(s).remove(ks)) by {
            assert forall|k: K| #[trigger] assoc_map(s2).contains_key(k) implies assoc_map(
                s,
            ).remove(ks).contains_key(k) && assoc_map(s2)[k] == assoc_map(s).remove(ks)[k] by {
                let i1 = choose|i1: int| 0 <= i1 < s2.len() && (#[trigger] s2[i1]).0 == k;
                assert(s[i1].0 == k);
                assert(lt(s[i1].0, ks));
                assert(k != ks);
                lemma_assoc_map_index(s2);
                assert(assoc_map(s2)[k] == s2[i1].1@);
                assert(assoc_map(s)[k] == s[i1].1@);
            }
            assert forall|k: K| #[trigger] assoc_map(s).remove(ks).contains_key(k) implies
                assoc_map(s2).contains_key(k) by {
                let i1 = choose|i1: int| 0 <= i1 < s.len() && (#[trigger] s[i1]).0 == k;
                assert(k != ks);
                assert(i1 < s.len() - 1);
                assert(s2[i1].0 == k);
            }
        }
        assert(assoc_map(t2) =~= assoc_map(t).remove(kt)) by {
            assert forall|k: K| #[trigger] assoc_map(t2).contains_key(k) implies assoc_map(
                t,
            ).remove(kt).contains_key(k) && assoc_map(t2)[k] == assoc_map(t).remove(kt)[k] by {
                let i1 = choose|i1: int| 0 <= i1 < t2.len() && (#[trigger] t2[i1]).0 == k;
                assert(t[i1].0 == k);
                assert(lt(t[i1].0, kt));
                assert(k != kt);
                lemma_assoc_map_index(t2);
                assert(assoc_map(t2)[k] == t2[i1].1@);
                assert(assoc_map(t)[k] == t[i1].1@);
            }
            assert forall|k: K| #[trigger] assoc_map(t).remove(kt).contains_key(k) implies
                assoc_map(t2).contains_key(k) by {
                let i1 = choose|i1: int| 0 <= i1 < t.len() && (#[trigger] t[i1]).0 == k;
                assert(k != kt);
                assert(i1 < t.len() - 1);
                assert(t2[i1].0 == k);
            }
        }
        lemma_assoc_canonical(s2, t2, lt);
        assert forall|i1: int| 0 <= i1 < s.len() implies (#[trigger] s[i1]).0 == t[i1].0 && s[
            i1].1@ == t[i1].1@ by {
            if i1 < s.len() - 1 {
                assert(s2[i1].0 == t2[i1].0 && s2[i1].1@ == t2[i1].1@);
            }
        }
    }
}

/// Two well-formed states denoting the same mappings have equal
/// canonical tables: the view determines the entries.
pub proof fn lemma_view_entries_equal(a: LatticeAssignments, b: LatticeAssignments)
    requires
        a.wf(),
        b.wf(),
        a@ == b@,
    ensures
        a.entries_equal(b),
{
    let slt = |x: Scalar, y: Scalar| scalar_lt(x, y);
    assert forall|x: Scalar, y: Scalar| #[trigger] slt(x, y) implies x != y && !slt(y, x) by {}
    assert forall|x: Scalar, y: Scalar| x != y implies #[trigger] slt(x, y) || #[trigger] slt(
        y,
        x,
    ) by {}
    assert forall|i: int, j: int| 0 <= i < j < a.scalars@.len() implies slt(
        (#[trigger] a.scalars@[i]).0,
        (#[trigger] a.scalars@[j]).0,
    ) by {}
    assert forall|i: int, j: int| 0 <= i < j < b.scalars@.len() implies slt(
        (#[trigger] b.scalars@[i]).0,
        (#[trigger] b.scalars@[j]).0,
    ) by {}
    lemma_assoc_canonical(a.scalars@, b.scalars@, slt);
    let ult = |x: u64, y: u64| x < y;
    assert forall|x: u64, y: u64| #[trigger] ult(x, y) implies x != y && !ult(y, x) by {}
    assert forall|x: u64, y: u64| x != y implies #[trigger] ult(x, y) || #[trigger] ult(y, x) by {}
    assert forall|i: int, j: int| 0 <= i < j < a.memory@.len() implies ult(
        (#[trigger] a.memory@[i]).0,
        (#[trigger] a.memory@[j]).0,
    ) by {}
    assert forall|i: int, j: int| 0 <= i < j < b.memory@.len() implies ult(
        (#[trigger] b.memory@[i]).0,
        (#[trigger] b.memory@[j]).0,
    ) by {}
    lemma_assoc_canonical(a.memory@, b.memory@, ult);
}

/// Look a key up in a mapping, defaulting to bottom (`Meet`): a location
/// never assigned carries no information.
pub open spec fn lookup<K>(m: Map<K, LatticeView>, k: K) -> LatticeView {
    if m.contains_key(k) {
        m[k]
    } else {
        LatticeView::Bot
    }
}

/// The mathematical model of an abstract state.
pub struct AssignView {
    pub scalars: Map<Scalar, LatticeView>,
    pub memory: Map<u64, LatticeView>,
}

/// The abstract state: scalar assignments and an abstract memory, with
/// the widening bound `max`.
#[derive(Debug)]
pub struct LatticeAssignments {
    pub scalars: Vec<(Scalar, LatticeValue)>,
    pub memory: Vec<(u64, LatticeValue)>,
    pub max: usize,
}

/// Scalar entries strictly sorted by key.
pub open spec fn scalars_sorted(s: Seq<(Scalar, LatticeValue)>) -> bool {
    forall|i: int, j: int|
        0 <= i < j < s.len() ==> scalar_lt((#[trigger] s[i]).0, (#[trigger] s[j]).0)
}

/// Memory entries strictly sorted by address.
pub open spec fn memory_sorted(s: Seq<(u64, LatticeValue)>) -> bool {
    forall|i: int, j: int| 0 <= i < j < s.len() ==> (#[trigger] s[i]).0 < (#[trigger] s[j]).0
}

/// Every entry's value is well-formed under `max`.
pub open spec fn entries_wf<K>(s: Seq<(K, LatticeValue)>, max: nat) -> bool {
    forall|i: int| 0 <= i < s.len() ==> (#[trigger] s[i]).1.wf(max)
}

impl View for LatticeAssignments {
    type V = AssignView;

    open spec fn view(&self) -> AssignView {
        AssignView { scalars: assoc_map(self.scalars@), memory: assoc_map(self.memory@) }
    }
}

impl LatticeAssignments {
    /// Well-formed: both tables canonically sorted, all values
    /// well-formed, and a positive bound.
    pub open spec fn wf(self) -> bool {
        &&& self.max >= 1
        &&& scalars_sorted(self.scalars@)
        &&& entries_wf(self.scalars@, self.max as nat)
        &&& memory_sorted(self.memory@)
        &&& entries_wf(self.memory@, self.max as nat)
    }

    /// A fresh state: nothing assigned, everything bottom.
    pub fn new(max: usize) -> (r: LatticeAssignments)
        requires
            max >= 1,
        ensures
            r.wf(),
            r.max == max,
            r@.scalars == Map::<Scalar, LatticeView>::empty(),
            r@.memory == Map::<u64, LatticeView>::empty(),
    {
        LatticeAssignments { scalars: Vec::new(), memory: Vec::new(), max }
    }

    /// The lattice value bound to a scalar, defaulting to `Meet`.
    pub fn get(&self, s: &Scalar) -> (r: LatticeValue)
        requires
            self.wf(),
        ensures
            r@ == lookup(self@.scalars, *s),
            r.wf(self.max as nat),
    {
        let mut i: usize = 0;
        proof {
            lemma_assoc_map_dom(self.scalars@);
            lemma_assoc_map_index(self.scalars@);
        }
        while i < self.scalars.len()
            invariant
                0 <= i <= self.scalars@.len(),
                self.wf(),
                forall|k: int| 0 <= k < i ==> (#[trigger] self.scalars@[k]).0 != *s,
                forall|k: int|
                    0 <= k < self.scalars@.len() ==> assoc_map(self.scalars@).contains_key((
                    #[trigger] self.scalars@[k]).0) && assoc_map(self.scalars@)[self.scalars@[k].0]
                        == self.scalars@[k].1@,
                forall|k: Scalar|
                    #[trigger] assoc_map(self.scalars@).contains_key(k) <==> exists|j: int|
                        0 <= j < self.scalars@.len() && (#[trigger] self.scalars@[j]).0 == k,
            decreases self.scalars@.len() - i,
        {
            if self.scalars[i].0.name == s.name && self.scalars[i].0.bits == s.bits {
                proof {
                    assert(self.scalars@[i as int].0 == *s);
                }
                return self.scalars[i].1.clone();
            }
            i = i + 1;
        }
        proof {
            assert(!assoc_map(self.scalars@).contains_key(*s));
        }
        LatticeValue::Meet
    }

    /// Bind a scalar to a lattice value, replacing any previous binding.
    pub fn set(&mut self, s: Scalar, v: LatticeValue)
        requires
            old(self).wf(),
            v.wf(old(self).max as nat),
        ensures
            final(self).wf(),
            final(self).max == old(self).max,
            final(self)@.scalars == old(self)@.scalars.insert(s, v@),
            final(self)@.memory == old(self)@.memory,
    {
        let ghost orig = self.scalars@;
        let mut i: usize = 0;
        while i < self.scalars.len() && scalar_less(&self.scalars[i].0, &s)
            invariant
                0 <= i <= self.scalars@.len(),
                self == old(self),
                forall|k: int| 0 <= k < i ==> scalar_lt((#[trigger] self.scalars@[k]).0, s),
            decreases self.scalars@.len() - i,
        {
            i = i + 1;
        }
        proof {
            lemma_assoc_map_dom(orig);
            lemma_assoc_map_index(orig);
        }
        if i < self.scalars.len() && self.scalars[i].0.name == s.name && self.scalars[i].0.bits
            == s.bits {
            proof {
                assert(orig[i as int].0 == s);
            }
            self.scalars[i] = (s, v);
            proof {
                lemma_assoc_map_dom(self.scalars@);
                lemma_assoc_map_index(self.scalars@);
                assert forall|k: Scalar| true implies #[trigger] assoc_map(
                    self.scalars@,
                ).contains_key(k) == old(self)@.scalars.insert(s, v@).contains_key(k) by {
                    if assoc_map(self.scalars@).contains_key(k) {
                        let j = choose|j: int|
                            0 <= j < self.scalars@.len() && (#[trigger] self.scalars@[j]).0 == k;
                        if j != i {
                            assert(orig[j].0 == k);
                        }
                    }
                    if old(self)@.scalars.insert(s, v@).contains_key(k) {
                        if k != s {
                            let j = choose|j: int| 0 <= j < orig.len() && (#[trigger] orig[j]).0 == k;
                            assert(self.scalars@[j].0 == k);
                        } else {
                            assert(self.scalars@[i as int].0 == k);
                        }
                    }
                }
                assert forall|k: Scalar| #[trigger] assoc_map(self.scalars@).contains_key(
                    k,
                ) implies assoc_map(self.scalars@)[k] == old(self)@.scalars.insert(s, v@)[k] by {
                    let j = choose|j: int|
                        0 <= j < self.scalars@.len() && (#[trigger] self.scalars@[j]).0 == k;
                    if j == i {
                    } else {
                        assert(orig[j].0 == k && orig[j].1@ == self.scalars@[j].1@);
                    }
                }
                assert(assoc_map(self.scalars@) =~= old(self)@.scalars.insert(s, v@));
            }
        } else {
            proof {
                assert(forall|k: int|
                    i <= k < orig.len() ==> !scalar_lt((#[trigger] orig[k]).0, s) && orig[k].0
                        != s);
                assert(forall|k: int| i <= k < orig.len() ==> scalar_lt(s, (#[trigger] orig[k]).0));
                assert(!assoc_map(orig).contains_key(s));
            }
            self.scalars.insert(i, (s, v));
            proof {
                assert(self.scalars@ == orig.insert(i as int, (s, v)));
                lemma_assoc_map_dom(self.scalars@);
                lemma_assoc_map_index(self.scalars@);
                assert forall|k: int| 0 <= k < self.scalars@.len() implies ((#[trigger] self.scalars@[k])
                    == if k < i {
                    orig[k]
                } else if k == i {
                    (s, v)
                } else {
                    orig[k - 1]
                }) by {}
                assert forall|k: Scalar| true implies #[trigger] assoc_map(
                    self.scalars@,
                ).contains_key(k) == old(self)@.scalars.insert(s, v@).contains_key(k) by {
                    if assoc_map(self.scalars@).contains_key(k) {
                        let j = choose|j: int|
                            0 <= j < self.scalars@.len() && (#[trigger] self.scalars@[j]).0 == k;
                        if j < i {
                            assert(orig[j].0 == k);
                        } else if j > i {
                            assert(orig[j - 1].0 == k);
                        }
                    }
                    if old(self)@.scalars.insert(s, v@).contains_key(k) {
                        if k == s {
                            assert(self.scalars@[i as int].0 == k);
                        } else {
                            let j = choose|j: int| 0 <= j < orig.len() && (#[trigger] orig[j]).0 == k;
                            if j < i {
                                assert(self.scalars@[j].0 == k);
                            } else {
                                assert(self.scalars@[j + 1].0 == k);
                            }
                        }
                    }
                }
                assert forall|k: Scalar| #[trigger] assoc_map(self.scalars@).contains_key(
                    k,
                ) implies assoc_map(self.scalars@)[k] == old(self)@.scalars.insert(s, v@)[k] by {
                    let j = choose|j: int|
                        0 <= j < self.scalars@.len() && (#[trigger] self.scalars@[j]).0 == k;
                    if j < i {
                        assert(orig[j].0 == k && orig[j].1@ == self.scalars@[j].1@);
                    } else if j > i {
                        assert(orig[j - 1].0 == k && orig[j - 1].1@ == self.scalars@[j].1@);
                    }
                }
                assert(assoc_map(self.scalars@) =~= old(self)@.scalars.insert(s, v@));
            }
        }
    }
}

impl LatticeAssignments {
    /// The lattice value the abstract memory holds at a concrete
    /// address, if any. An address never stored is absent, and a load
    /// from it denotes `Meet` (unknown), not an empty set.
    pub fn memory_get(&self, a: u64) -> (r: Option<LatticeValue>)
        requires
            self.wf(),
        ensures
            match r {
                Some(v) => self@.memory.contains_key(a) && v@ == self@.memory[a] && v.wf(
                    self.max as nat,
                ),
                None => !self@.memory.contains_key(a),
            },
    {
        let mut i: usize = 0;
        proof {
            lemma_assoc_map_dom(self.memory@);
            lemma_assoc_map_index(self.memory@);
        }
        while i < self.memory.len()
            invariant
                0 <= i <= self.memory@.len(),
                self.wf(),
                forall|k: int| 0 <= k < i ==> (#[trigger] self.memory@[k]).0 != a,
                forall|k: int|
                    0 <= k < self.memory@.len() ==> assoc_map(self.memory@).contains_key((
                    #[trigger] self.memory@[k]).0) && assoc_map(self.memory@)[self.memory@[k].0]
                        == self.memory@[k].1@,
                forall|k: u64|
                    #[trigger] assoc_map(self.memory@).contains_key(k) <==> exists|j: int|
                        0 <= j < self.memory@.len() && (#[trigger] self.memory@[j]).0 == k,
            decreases self.memory@.len() - i,
        {
            if self.memory[i].0 == a {
                proof {
                    assert(self.memory@[i as int].0 == a);
                }
                return Some(self.memory[i].1.clone());
            }
            i = i + 1;
        }
        None
    }

    /// Write a lattice value into the abstract memory at a concrete
    /// address, replacing any previous value there.
    #[verifier::rlimit(60)]
    pub fn memory_set(&mut self, a: u64, v: LatticeValue)
        requires
            old(self).wf(),
            v.wf(old(self).max as nat),
        ensures
            final(self).wf(),
            final(self).max == old(self).max,
            final(self)@.memory == old(self)@.memory.insert(a, v@),
            final(self)@.scalars == old(self)@.scalars,
    {
        let ghost orig = self.memory@;
        let mut i: usize = 0;
        while i < self.memory.len() && self.memory[i].0 < a
            invariant
                0 <= i <= self.memory@.len(),
                self == old(self),
                forall|k: int| 0 <= k < i ==> (#[trigger] self.memory@[k]).0 < a,
            decreases self.memory@.len() - i,
        {
            i = i + 1;
        }
        proof {
            lemma_assoc_map_dom(orig);
            lemma_assoc_map_index(orig);
        }
        if i < self.memory.len() && self.memory[i].0 == a {
            proof {
                assert(orig[i as int].0 == a);
            }
            self.memory[i] = (a, v);
            proof {
                lemma_assoc_map_dom(self.memory@);
                lemma_assoc_map_index(self.memory@);
                assert forall|k: u64| true implies #[trigger] assoc_map(
                    self.memory@,
                ).contains_key(k) == old(self)@.memory.insert(a, v@).contains_key(k) by {
                    if assoc_map(self.memory@).contains_key(k) {
                        let j = choose|j: int|
                            0 <= j < self.memory@.len() && (#[trigger] self.memory@[j]).0 == k;
                        if j != i {
                            assert(orig[j].0 == k);
                        }
                    }
                    if old(self)@.memory.insert(a, v@).contains_key(k) {
                        if k != a {
                            let j = choose|j: int| 0 <= j < orig.len() && (#[trigger] orig[j]).0 == k;
                            assert(self.memory@[j].0 == k);
                        } else {
                            assert(self.memory@[i as int].0 == k);
                        }
                    }
                }
                assert forall|k: u64| #[trigger] assoc_map(self.memory@).contains_key(k) implies
                    assoc_map(self.memory@)[k] == old(self)@.memory.insert(a, v@)[k] by {
                    let j = choose|j: int|
                        0 <= j < self.memory@.len() && (#[trigger] self.memory@[j]).0 == k;
                    if j == i {
                    } else {
                        assert(orig[j].0 == k && orig[j].1@ == self.memory@[j].1@);
                    }
                }
                assert(assoc_map(self.memory@) =~= old(self)@.memory.insert(a, v@));
            }
        } else {
            proof {
                assert(forall|k: int| i <= k < orig.len() ==> (#[trigger] orig[k]).0 >= a);
                assert(forall|k: int| i <= k < orig.len() ==> (#[trigger] orig[k]).0 != a);
                assert(!assoc_map(orig).contains_key(a));
            }
            self.memory.insert(i, (a, v));
            proof {
                assert(self.memory@ == orig.insert(i as int, (a, v)));
                lemma_assoc_map_dom(self.memory@);
                lemma_assoc_map_index(self.memory@);
                assert forall|k: u64| true implies #[trigger] assoc_map(
                    self.memory@,
                ).contains_key(k) == old(self)@.memory.insert(a, v@).contains_key(k) by {
                    if assoc_map(self.memory@).contains_key(k) {
                        let j = choose|j: int|
                            0 <= j < self.memory@.len() && (#[trigger] self.memory@[j]).0 == k;
                        if j < i {
                            assert(orig[j].0 == k);
                        } else if j > i {
                            assert(orig[j - 1].0 == k);
                        }
                    }
                    if old(self)@.memory.insert(a, v@).contains_key(k) {
                        if k == a {
                            assert(self.memory@[i as int].0 == k);
                        } else {
                            let j = choose|j: int| 0 <= j < orig.len() && (#[trigger] orig[j]).0 == k;
                            if j < i {
                                assert(self.memory@[j].0 == k);
                            } else {
                                assert(self.memory@[j + 1].0 == k);
                            }
                        }
                    }
                }
                assert forall|k: u64| #[trigger] assoc_map(self.memory@).contains_key(k) implies
                    assoc_map(self.memory@)[k] == old(self)@.memory.insert(a, v@)[k] by {
                    let j = choose|j: int|
                        0 <= j < self.memory@.len() && (#[trigger] self.memory@[j]).0 == k;
                    if j < i {
                        assert(orig[j].0 == k && orig[j].1@ == self.memory@[j].1@);
                    } else if j > i {
                        assert(orig[j - 1].0 == k && orig[j - 1].1@ == self.memory@[j].1@);
                    }
                }
                assert(assoc_map(self.memory@) =~= old(self)@.memory.insert(a, v@));
            }
        }
    }
}

/// The single concrete address an evaluated address denotes, if it
/// denotes exactly one.
pub open spec fn single_address(a: LatticeView) -> Option<u64> {
    match a {
        LatticeView::Vals(s) => if s.finite() && s.len() == 1 {
            Some(s.choose().value)
        } else {
            None
        },
        _ => None,
    }
}

/// The abstract memory after a store through an evaluated address: a
/// strong update when the address is a single concrete value; stores
/// through imprecise addresses (several candidates, `Join`, or `Meet`)
/// leave the mapping unchanged — a documented precision trade-off.
pub open spec fn spec_store(m: Map<u64, LatticeView>, a: LatticeView, v: LatticeView) -> Map<
    u64,
    LatticeView,
> {
    match single_address(a) {
        Some(addr) => m.insert(addr, v),
        None => m,
    }
}

impl LatticeAssignments {
    /// Store an evaluated value through an evaluated address.
    pub fn store(&mut self, address: &LatticeValue, value: LatticeValue)
        requires
            old(self).wf(),
            address.wf(old(self).max as nat),
            value.wf(old(self).max as nat),
        ensures
            final(self).wf(),
            final(self).max == old(self).max,
            final(self)@.memory == spec_store(old(self)@.memory, address@, value@),
            final(self)@.scalars == old(self)@.scalars,
    {
        match address {
            LatticeValue::Values(v) => {
                if v.len() == 1 {
                    proof {
                        let s = v@.to_set();
                        assert(s.contains(v@[0]));
                        crate::lattice::lemma_sorted_strict_card(v@);
                        assert forall|x: Constant| s.contains(x) implies x == v@[0] by {
                            if x != v@[0] {
                                let l = choose|l: int| 0 <= l < v@.len() && v@[l] == x;
                                assert(l == 0);
                            }
                        }
                        assert(s.choose() == v@[0]);
                    }
                    let addr = v[0].value;
                    self.memory_set(addr, value);
                } else {
                    proof {
                        crate::lattice::lemma_sorted_strict_card(v@);
                    }
                }
            },
            _ => {},
        }
    }

    /// Load through an evaluated address: the value stored at the single
    /// concrete address it denotes. `None` means the address is
    /// imprecise or was never stored — the caller binds `Meet`.
    pub fn load(&self, address: &LatticeValue) -> (r: Option<LatticeValue>)
        requires
            self.wf(),
            address.wf(self.max as nat),
        ensures
            match r {
                Some(v) => {
                    &&& single_address(address@) matches Some(addr)
                    &&& self@.memory.contains_key(single_address(address@)->Some_0)
                    &&& v@ == self@.memory[single_address(address@)->Some_0]
                    &&& v.wf(self.max as nat)
                },
                None => match single_address(address@) {
                    Some(addr) => !self@.memory.contains_key(addr),
                    None => true,
                },
            },
    {
        match address {
            LatticeValue::Values(v) => {
                if v.len() == 1 {
                    proof {
                        let s = v@.to_set();
                        assert(s.contains(v@[0]));
                        crate::lattice::lemma_sorted_strict_card(v@);
                        assert forall|x: Constant| s.contains(x) implies x == v@[0] by {
                            if x != v@[0] {
                                let l = choose|l: int| 0 <= l < v@.len() && v@[l] == x;
                                assert(l == 0);
                            }
                        }
                        assert(s.choose() == v@[0]);
                    }
                    self.memory_get(v[0].value)
                } else {
                    proof {
                        crate::lattice::lemma_sorted_strict_card(v@);
                    }
                    None
                }
            },
            _ => None,
        }
    }
}

/// Whether a unary operator is defined on every constant a view holds.
pub open spec fn view_unop_ok(op: UnOp, a: LatticeView) -> bool {
    match a {
        LatticeView::Vals(s) => forall|c: Constant| #[trigger] s.contains(c) ==> op.ok_for(c.bits),
        _ => true,
    }
}

/// The lattice value an expression abstractly evaluates to under a
/// scalar assignment: constants are singletons, scalars are looked up
/// (defaulting to `Meet`), and operators apply pointwise with widening.
pub open spec fn spec_eval(e: Expression, sm: Map<Scalar, LatticeView>, max: nat) -> LatticeView
    decreases e,
{
    match e {
        Expression::Scalar(s) => lookup(sm, s),
        Expression::Constant(c) => LatticeView::Vals(Set::<Constant>::empty().insert(c)),
        Expression::Binop(op, l, r) => spec_lattice_binop(
            op,
            spec_eval(*l, sm, max),
            spec_eval(*r, sm, max),
            max,
        ),
        Expression::Unop(op, e2) => spec_lattice_unop(op, spec_eval(*e2, sm, max), max),
    }
}

/// When abstract evaluation succeeds: every unary operator application
/// is within its width domain.
pub open spec fn spec_eval_ok(e: Expression, sm: Map<Scalar, LatticeView>, max: nat) -> bool
    decreases e,
{
    match e {
        Expression::Scalar(_) => true,
        Expression::Constant(_) => true,
        Expression::Binop(_, l, r) => spec_eval_ok(*l, sm, max) && spec_eval_ok(*r, sm, max),
        Expression::Unop(op, e2) => spec_eval_ok(*e2, sm, max) && view_unop_ok(
            op,
            spec_eval(*e2, sm, max),
        ),
    }
}

/// The executable and the view-level operator domain checks agree.
pub proof fn lemma_unop_ok_view(op: UnOp, v: LatticeValue)
    ensures
        v.unop_ok(op) <==> view_unop_ok(op, v@),
{
    match v {
        LatticeValue::Values(vec) => {
            if v.unop_ok(op) {
                assert forall|c: Constant| #[trigger] vec@.to_set().contains(c) implies op.ok_for(
                    c.bits,
                ) by {
                    let l = choose|l: int| 0 <= l < vec@.len() && vec@[l] == c;
                    assert(op.ok_for((vec@[l]).bits));
                }
            }
            if view_unop_ok(op, v@) {
                let s2 = v@->Vals_0;
                assert(s2 == vec@.to_set());
                assert forall|k: int| 0 <= k < vec@.len() implies op.ok_for(
                    (#[trigger] vec@[k]).bits,
                ) by {
                    assert(vec@.contains(vec@[k]));
                    assert(s2.contains(vec@[k]));
                }
            }
        },
        _ => {},
    }
}

impl LatticeAssignments {
    /// Abstractly evaluate an expression under the current scalar
    /// assignment. Fails exactly when a unary operator meets a value
    /// outside its width domain.
    pub fn eval(&self, e: &Expression) -> (r: Result<LatticeValue, Error>)
        requires
            self.wf(),
            e.wf(),
        ensures
            r matches Ok(v) ==> v@ == spec_eval(*e, self@.scalars, self.max as nat) && v.wf(
                self.max as nat,
            ),
            (r is Ok) == spec_eval_ok(*e, self@.scalars, self.max as nat),
            r matches Err(er) ==> er == Error::EvaluationWidth,
        decreases *e,
    {
        match e {
            Expression::Scalar(s) => Ok(self.get(s)),
            Expression::Constant(c) => Ok(LatticeValue::singleton(*c)),
            Expression::Binop(op, l, r) => {
                let lv = self.eval(l)?;
                let rv = self.eval(r)?;
                Ok(LatticeValue::binop(*op, &lv, &rv, self.max))
            },
            Expression::Unop(op, e2) => {
                let v = self.eval(e2)?;
                proof {
                    lemma_unop_ok_view(*op, v);
                }
                match LatticeValue::unop(*op, &v, self.max) {
                    Some(res) => Ok(res),
                    None => Err(Error::EvaluationWidth),
                }
            },
        }
    }
}

/// Pointwise join of two mappings: keys of either side, values joined
/// with a missing side read as bottom.
pub open spec fn join_maps<K>(a: Map<K, LatticeView>, b: Map<K, LatticeView>, max: nat) -> Map<
    K,
    LatticeView,
> {
    Map::new(
        |k: K| a.contains_key(k) || b.contains_key(k),
        |k: K| spec_join(lookup(a, k), lookup(b, k), max),
    )
}

/// Joining two states never loses information: at every key, what a
/// state held is below what the joined state holds, so repeated
/// transfer-and-join only moves assignments up the lattice, toward
/// `Join`.
pub proof fn lemma_join_maps_upper_bound<K>(
    a: Map<K, LatticeView>,
    b: Map<K, LatticeView>,
    max: nat,
    k: K,
)
    ensures
        view_le(lookup(a, k), lookup(join_maps(a, b, max), k)),
        view_le(lookup(b, k), lookup(join_maps(a, b, max), k)),
{
    lemma_join_upper_bound(lookup(a, k), lookup(b, k), max);
    if a.contains_key(k) || b.contains_key(k) {
        assert(join_maps(a, b, max).contains_key(k));
        assert(join_maps(a, b, max)[k] == spec_join(lookup(a, k), lookup(b, k), max));
    }
}

impl Clone for LatticeAssignments {
    fn clone(&self) -> (r: Self)
        ensures
            r@ == self@,
            r.max == self.max,
            self.wf() ==> r.wf(),
    {
        let mut scalars: Vec<(Scalar, LatticeValue)> = Vec::new();
        let mut i: usize = 0;
        while i < self.scalars.len()
            invariant
                0 <= i <= self.scalars@.len(),
                scalars@.len() == i,
                forall|k: int|
                    0 <= k < i ==> (#[trigger] scalars@[k]).0 == self.scalars@[k].0 && scalars@[
                        k].1@ == self.scalars@[k].1@ && (forall|m: nat|
                        self.scalars@[k].1.wf(m) ==> #[trigger] scalars@[k].1.wf(m)),
            decreases self.scalars@.len() - i,
        {
            let (k, v) = (self.scalars[i].0, self.scalars[i].1.clone());
            scalars.push((k, v));
            i = i + 1;
        }
        let mut memory: Vec<(u64, LatticeValue)> = Vec::new();
        let mut j: usize = 0;
        while j < self.memory.len()
            invariant
                0 <= j <= self.memory@.len(),
                memory@.len() == j,
                forall|k: int|
                    0 <= k < j ==> (#[trigger] memory@[k]).0 == self.memory@[k].0 && memory@[k].1@
                        == self.memory@[k].1@ && (forall|m: nat|
                        self.memory@[k].1.wf(m) ==> #[trigger] memory@[k].1.wf(m)),
            decreases self.memory@.len() - j,
        {
            let (k, v) = (self.memory[j].0, self.memory[j].1.clone());
            memory.push((k, v));
            j = j + 1;
        }
        proof {
            lemma_assoc_map_congruence(scalars@, self.scalars@);
            lemma_assoc_map_congruence(memory@, self.memory@);
        }
        LatticeAssignments { scalars, memory, max: self.max }
    }
}

impl LatticeAssignments {
    /// Join with another state of the same bound, pointwise on scalars
    /// and on the abstract memory. The result is an upper bound of both.
    pub fn join(self, other: &LatticeAssignments) -> (r: LatticeAssignments)
        requires
            self.wf(),
            other.wf(),
            self.max == other.max,
        ensures
            r.wf(),
            r.max == self.max,
            r@.scalars == join_maps(self@.scalars, other@.scalars, self.max as nat),
            r@.memory == join_maps(self@.memory, other@.memory, self.max as nat),
    {
        let max = self.max;
        let ghost a = self@.scalars;
        let ghost am = self@.memory;
        let mut out = self;
        let mut i: usize = 0;
        proof {
            lemma_assoc_map_dom(other.scalars@);
            lemma_assoc_map_index(other.scalars@);
            assert(other.scalars@.take(0) =~= Seq::<(Scalar, LatticeValue)>::empty());
            assert(join_maps(a, assoc_map(other.scalars@.take(0)), max as nat) =~= a) by {
                assert forall|k: Scalar| a.contains_key(k) implies join_maps(
                    a,
                    assoc_map(other.scalars@.take(0)),
                    max as nat,
                )[k] == a[k] by {
                    assert(spec_join(lookup(a, k), LatticeView::Bot, max as nat) == lookup(a, k));
                }
            }
        }
        while i < other.scalars.len()
            invariant
                0 <= i <= other.scalars@.len(),
                out.wf(),
                out.max == max,
                max >= 1,
                other.wf(),
                other.max == max,
                out@.memory == am,
                out@.scalars == join_maps(a, assoc_map(other.scalars@.take(i as int)), max as nat),
            decreases other.scalars@.len() - i,
        {
            let (k, v) = (other.scalars[i].0, other.scalars[i].1.clone());
            let ghost prefix = assoc_map(other.scalars@.take(i as int));
            let cur = out.get(&k);
            let joined = cur.join(&v, max);
            proof {
                assert(other.scalars@.take(i + 1).drop_last() =~= other.scalars@.take(i as int));
                assert(other.scalars@.take(i + 1).last() == other.scalars@[i as int]);
                assert(assoc_map(other.scalars@.take(i + 1)) == prefix.insert(k, v@));
                lemma_assoc_map_dom(other.scalars@.take(i as int));
                assert(!prefix.contains_key(k)) by {
                    if prefix.contains_key(k) {
                        let j = choose|j: int|
                            0 <= j < i && (#[trigger] other.scalars@.take(i as int)[j]).0 == k;
                        assert(other.scalars@[j].0 == k);
                        assert(scalar_lt(other.scalars@[j].0, other.scalars@[i as int].0));
                    }
                }
                assert(lookup(out@.scalars, k) == lookup(a, k)) by {
                    assert(spec_join(lookup(a, k), LatticeView::Bot, max as nat) == lookup(a, k));
                }
                assert(joined@ == spec_join(lookup(a, k), v@, max as nat));
            }
            out.set(k, joined);
            proof {
                assert forall|k2: Scalar| true implies (#[trigger] join_maps(
                    a,
                    prefix.insert(k, v@),
                    max as nat,
                ).contains_key(k2) == join_maps(a, prefix, max as nat).insert(
                    k,
                    spec_join(lookup(a, k), v@, max as nat),
                ).contains_key(k2) && (join_maps(a, prefix.insert(k, v@), max as nat).contains_key(
                    k2,
                ) ==> join_maps(a, prefix.insert(k, v@), max as nat)[k2] == join_maps(
                    a,
                    prefix,
                    max as nat,
                ).insert(k, spec_join(lookup(a, k), v@, max as nat))[k2])) by {
                    if k2 != k {
                        assert(lookup(prefix.insert(k, v@), k2) == lookup(prefix, k2));
                    }
                }
                assert(join_maps(a, prefix.insert(k, v@), max as nat) =~= join_maps(
                    a,
                    prefix,
                    max as nat,
                ).insert(k, spec_join(lookup(a, k), v@, max as nat)));
            }
            i = i + 1;
        }
        proof {
            assert(other.scalars@.take(other.scalars@.len() as int) =~= other.scalars@);
        }
        let mut j: usize = 0;
        proof {
            lemma_assoc_map_dom(other.memory@);
            lemma_assoc_map_index(other.memory@);
            let ghost b = assoc_map(other.memory@);
            assert(other.memory@.take(0) =~= Seq::<(u64, LatticeValue)>::empty());
            assert(join_maps(am, assoc_map(other.memory@.take(0)), max as nat) =~= am) by {
                assert forall|k: u64| am.contains_key(k) implies join_maps(
                    am,
                    assoc_map(other.memory@.take(0)),
                    max as nat,
                )[k] == am[k] by {
                    assert(spec_join(lookup(am, k), LatticeView::Bot, max as nat) == lookup(am, k));
                }
            }
        }
        let ghost sc = out@.scalars;
        while j < other.memory.len()
            invariant
                0 <= j <= other.memory@.len(),
                out.wf(),
                out.max == max,
                max >= 1,
                other.wf(),
                other.max == max,
                out@.scalars == sc,
                out@.memory == join_maps(am, assoc_map(other.memory@.take(j as int)), max as nat),
            decreases other.memory@.len() - j,
        {
            let (k, v) = (other.memory[j].0, other.memory[j].1.clone());
            let ghost prefix = assoc_map(other.memory@.take(j as int));
            let cur = match out.memory_get(k) {
                Some(c) => c,
                None => LatticeValue::Meet,
            };
            let joined = cur.join(&v, max);
            proof {
                assert(other.memory@.take(j + 1).drop_last() =~= other.memory@.take(j as int));
                assert(other.memory@.take(j + 1).last() == other.memory@[j as int]);
                assert(assoc_map(other.memory@.take(j + 1)) == prefix.insert(k, v@));
                lemma_assoc_map_dom(other.memory@.take(j as int));
                assert(!prefix.contains_key(k)) by {
                    if prefix.contains_key(k) {
                        let l = choose|l: int|
                            0 <= l < j && (#[trigger] other.memory@.take(j as int)[l]).0 == k;
                        assert(other.memory@[l].0 == k);
                    }
                }
                assert(lookup(out@.memory, k) == lookup(am, k)) by {
                    assert(spec_join(lookup(am, k), LatticeView::Bot, max as nat) == lookup(am, k));
                }
                assert(cur@ == lookup(am, k));
                assert(joined@ == spec_join(lookup(am, k), v@, max as nat));
            }
            out.memory_set(k, joined);
            proof {
                assert forall|k2: u64| true implies (#[trigger] join_maps(
                    am,
                    prefix.insert(k, v@),
                    max as nat,
                ).contains_key(k2) == join_maps(am, prefix, max as nat).insert(
                    k,
                    spec_join(lookup(am, k), v@, max as nat),
                ).contains_key(k2) && (join_maps(am, prefix.insert(k, v@), max as nat).contains_key(
                    k2,
                ) ==> join_maps(am, prefix.insert(k, v@), max as nat)[k2] == join_maps(
                    am,
                    prefix,
                    max as nat,
                ).insert(k, spec_join(lookup(am, k), v@, max as nat))[k2])) by {
                    if k2 != k {
                        assert(lookup(prefix.insert(k, v@), k2) == lookup(prefix, k2));
                    }
                }
                assert(join_maps(am, prefix.insert(k, v@), max as nat) =~= join_maps(
                    am,
                    prefix,
                    max as nat,
                ).insert(k, spec_join(lookup(am, k), v@, max as nat)));
            }
            j = j + 1;
        }
        proof {
            assert(other.memory@.take(other.memory@.len() as int) =~= other.memory@);
        }
        out
    }

    /// Entry-wise equality of two states' canonical tables.
    pub open spec fn entries_equal(self, other: LatticeAssignments) -> bool {
        &&& self.scalars@.len() == other.scalars@.len()
        &&& self.memory@.len() == other.memory@.len()
        &&& forall|i: int|
            0 <= i < self.scalars@.len() ==> (#[trigger] self.scalars@[i]).0 == other.scalars@[
                i].0 && self.scalars@[i].1@ == other.scalars@[i].1@
        &&& forall|i: int|
            0 <= i < self.memory@.len() ==> (#[trigger] self.memory@[i]).0 == other.memory@[i].0
                && self.memory@[i].1@ == other.memory@[i].1@
    }

    /// Decide equality of two states: exactly when their canonical
    /// tables agree entry by entry, which makes them denote the same
    /// mappings.
    pub fn same_as(&self, other: &LatticeAssignments) -> (r: bool)
        requires
            self.wf(),
            other.wf(),
        ensures
            r == self.entries_equal(*other),
            r ==> self@ == other@,
    {
        if self.scalars.len() != other.scalars.len() || self.memory.len() != other.memory.len() {
            return false;
        }
        let mut i: usize = 0;
        while i < self.scalars.len()
            invariant
                0 <= i <= self.scalars@.len(),
                self.wf(),
                other.wf(),
                self.scalars@.len() == other.scalars@.len(),
                forall|k: int|
                    0 <= k < i ==> (#[trigger] self.scalars@[k]).0 == other.scalars@[k].0
                        && self.scalars@[k].1@ == other.scalars@[k].1@,
            decreases self.scalars@.len() - i,
        {
            proof {
                assert(self.scalars@[i as int].1.wf(self.max as nat));
                assert(other.scalars@[i as int].1.wf(other.max as nat));
            }
            if !(self.scalars[i].0.name == other.scalars[i].0.name && self.scalars[i].0.bits
                == other.scalars[i].0.bits) {
                return false;
            }
            if !lattice_value_eq(&self.scalars[i].1, &other.scalars[i].1) {
                return false;
            }
            i = i + 1;
        }
        let mut j: usize = 0;
        while j < self.memory.len()
            invariant
                0 <= j <= self.memory@.len(),
                self.wf(),
                other.wf(),
                self.scalars@.len() == other.scalars@.len(),
                forall|k: int|
                    0 <= k < self.scalars@.len() ==> (#[trigger] self.scalars@[k]).0
                        == other.scalars@[k].0 && self.scalars@[k].1@ == other.scalars@[k].1@,
                self.memory@.len() == other.memory@.len(),
                forall|k: int|
                    0 <= k < j ==> (#[trigger] self.memory@[k]).0 == other.memory@[k].0
                        && self.memory@[k].1@ == other.memory@[k].1@,
            decreases self.memory@.len() - j,
        {
            proof {
                assert(self.memory@[j as int].1.wf(self.max as nat));
                assert(other.memory@[j as int].1.wf(other.max as nat));
            }
            if self.memory[j].0 != other.memory[j].0 {
                return false;
            }
            if !lattice_value_eq(&self.memory[j].1, &other.memory[j].1) {
                return false;
            }
            j = j + 1;
        }
        proof {
            lemma_assoc_map_congruence(self.scalars@, other.scalars@);
            lemma_assoc_map_congruence(self.memory@, other.memory@);
        }
        true
    }
}

/// Decide equality of two canonically represented lattice values:
/// exactly when they denote the same element of the lattice.
pub fn lattice_value_eq(a: &LatticeValue, b: &LatticeValue) -> (r: bool)
    requires
        a.canonical(),
        b.canonical(),
    ensures
        r == (a@ == b@),
{
    match (a, b) {
        (LatticeValue::Join, LatticeValue::Join) => true,
        (LatticeValue::Meet, LatticeValue::Meet) => true,
        (LatticeValue::Values(va), LatticeValue::Values(vb)) => {
            if va.len() != vb.len() {
                proof {
                    lemma_sorted_strict_card(va@);
                    lemma_sorted_strict_card(vb@);
                }
                return false;
            }
            let mut i: usize = 0;
            while i < va.len()
                invariant
                    0 <= i <= va@.len(),
                    va@.len() == vb@.len(),
                    sorted_strict(va@),
                    sorted_strict(vb@),
                    a@ == LatticeView::Vals(va@.to_set()),
                    b@ == LatticeView::Vals(vb@.to_set()),
                    forall|k: int| 0 <= k < i ==> #[trigger] va@[k] == vb@[k],
                decreases va@.len() - i,
            {
                if !(va[i].value == vb[i].value && va[i].bits == vb[i].bits) {
                    proof {
                        assert(va@[i as int] != vb@[i as int]);
                        if va@.to_set() == vb@.to_set() {
                            lemma_sorted_strict_same_set(va@, vb@);
                        }
                    }
                    return false;
                }
                i = i + 1;
            }
            proof {
                assert(va@ =~= vb@);
            }
            true
        },
        _ => false,
    }
}

} // verus!
