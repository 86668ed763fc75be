//! The value-set lattice: bounded sets of concrete values, with Join as
//! top (unconstrained) and Meet as bottom (unreached or unknown), widened
//! to Join once a set would exceed the configured bound `max`.

use vstd::prelude::*;
use vstd::set_lib::lemma_len_subset;
use crate::il::{BinOp, Constant, UnOp, const_lt, const_less, spec_binop, spec_unop};

verus! {

/// The mathematical model of a lattice value: top, bottom, or a set of
/// concrete constants.
pub enum LatticeView {
    Top,
    Bot,
    Vals(Set<Constant>),
}

/// A value of the lattice domain. `Values` holds its set as a strictly
/// sorted vector, so equal sets have equal representations.
#[derive(Debug)]
pub enum LatticeValue {
    Join,
    Meet,
    Values(Vec<Constant>),
}

impl Clone for LatticeValue {
    fn clone(&self) -> (r: Self)
        ensures
            r@ == self@,
            forall|m: nat| self.wf(m) ==> #[trigger] r.wf(m),
    {
        match self {
            LatticeValue::Join => LatticeValue::Join,
            LatticeValue::Meet => LatticeValue::Meet,
            LatticeValue::Values(v) => {
                let mut out: Vec<Constant> = Vec::new();
                let mut i: usize = 0;
                while i < v.len()
                    invariant
                        0 <= i <= v@.len(),
                        out@ == v@.take(i as int),
                    decreases v@.len() - i,
                {
                    out.push(v[i]);
                    proof {
                        assert(out@ =~= v@.take(i + 1));
                    }
                    i = i + 1;
                }
                proof {
                    assert(out@ =~= v@);
                }
                LatticeValue::Values(out)
            },
        }
    }
}

/// A strictly sorted sequence of constants.
pub open spec fn sorted_strict(s: Seq<Constant>) -> bool {
    forall|i: int, j: int| 0 <= i < j < s.len() ==> const_lt(#[trigger] s[i], #[trigger] s[j])
}

/// Every constant in the sequence is well-formed.
pub open spec fn all_wf(s: Seq<Constant>) -> bool {
    forall|i: int| 0 <= i < s.len() ==> (#[trigger] s[i]).wf()
}

impl View for LatticeValue {
    type V = LatticeView;

    open spec fn view(&self) -> LatticeView {
        match self {
            LatticeValue::Join => LatticeView::Top,
            LatticeValue::Meet => LatticeView::Bot,
            LatticeValue::Values(v) => LatticeView::Vals(v@.to_set()),
        }
    }
}

impl LatticeValue {
    /// Well-formed under the bound `max`: a value set is a canonical,
    /// non-empty, strictly sorted vector of at most `max` well-formed
    /// constants.
    pub open spec fn wf(self, max: nat) -> bool {
        match self {
            LatticeValue::Join => true,
            LatticeValue::Meet => true,
            LatticeValue::Values(v) => {
                &&& 1 <= v@.len() <= max
                &&& sorted_strict(v@)
                &&& all_wf(v@)
            },
        }
    }

    /// Canonical representation: a value set's vector is strictly
    /// sorted, so equal sets have equal representations.
    pub open spec fn canonical(self) -> bool {
        match self {
            LatticeValue::Values(v) => sorted_strict(v@),
            _ => true,
        }
    }

    /// The lattice value holding exactly one constant.
    pub fn singleton(c: Constant) -> (r: LatticeValue)
        requires
            c.wf(),
        ensures
            r@ == LatticeView::Vals(Set::<Constant>::empty().insert(c)),
            forall|max: nat| max >= 1 ==> r.wf(max),
    {
        let v: Vec<Constant> = vec![c];
        proof {
            assert(v@.to_set() =~= Set::<Constant>::empty().insert(c));
        }
        LatticeValue::Values(v)
    }
}

/// Well-formedness of a lattice view under the bound `max`.
pub open spec fn view_wf(a: LatticeView, max: nat) -> bool {
    match a {
        LatticeView::Vals(s) => s.finite() && 1 <= s.len() <= max,
        _ => true,
    }
}

/// The join of two lattice views: top absorbs, bottom is the identity,
/// and value sets are united, widening to top past the bound.
pub open spec fn spec_join(a: LatticeView, b: LatticeView, max: nat) -> LatticeView {
    match (a, b) {
        (LatticeView::Top, _) => LatticeView::Top,
        (_, LatticeView::Top) => LatticeView::Top,
        (LatticeView::Bot, x) => x,
        (x, LatticeView::Bot) => x,
        (LatticeView::Vals(s), LatticeView::Vals(t)) => if s.union(t).len() <= max {
            LatticeView::Vals(s.union(t))
        } else {
            LatticeView::Top
        },
    }
}

/// The partial order of the lattice: bottom below everything, everything
/// below top, value sets ordered by inclusion.
pub open spec fn view_le(a: LatticeView, b: LatticeView) -> bool {
    match (a, b) {
        (LatticeView::Bot, _) => true,
        (_, LatticeView::Top) => true,
        (LatticeView::Vals(s), LatticeView::Vals(t)) => s.subset_of(t),
        _ => false,
    }
}

/// Join is idempotent: `join(a, a) == a`.
pub proof fn lemma_join_idempotent(a: LatticeView, max: nat)
    requires
        view_wf(a, max),
    ensures
        spec_join(a, a, max) == a,
{
    match a {
        LatticeView::Vals(s) => {
            assert(s.union(s) =~= s);
        },
        _ => {},
    }
}

/// Join is commutative: `join(a, b) == join(b, a)`.
pub proof fn lemma_join_commutative(a: LatticeView, b: LatticeView, max: nat)
    ensures
        spec_join(a, b, max) == spec_join(b, a, max),
{
    match (a, b) {
        (LatticeView::Vals(s), LatticeView::Vals(t)) => {
            assert(s.union(t) =~= t.union(s));
        },
        _ => {},
    }
}

/// Join is associative: `join(join(a, b), c) == join(a, join(b, c))`.
pub proof fn lemma_join_associative(a: LatticeView, b: LatticeView, c: LatticeView, max: nat)
    requires
        view_wf(a, max),
        view_wf(b, max),
        view_wf(c, max),
    ensures
        spec_join(spec_join(a, b, max), c, max) == spec_join(a, spec_join(b, c, max), max),
{
    match (a, b, c) {
        (LatticeView::Vals(s), LatticeView::Vals(t), LatticeView::Vals(u)) => {
            let st = s.union(t);
            let tu = t.union(u);
            let stu = s.union(t).union(u);
            assert(s.union(tu) =~= stu);
            assert(st.union(u) =~= stu);
            assert(stu.finite());
            if st.len() > max {
                lemma_len_subset(st, stu);
            } else if tu.len() > max {
                lemma_len_subset(tu, stu);
            } else {
                if stu.len() <= max {
                } else {
                }
            }
        },
        _ => {},
    }
}

/// Join is an upper bound of both of its arguments: information never
/// decreases under join.
pub proof fn lemma_join_upper_bound(a: LatticeView, b: LatticeView, max: nat)
    ensures
        view_le(a, spec_join(a, b, max)),
        view_le(b, spec_join(a, b, max)),
{
    match (a, b) {
        (LatticeView::Vals(s), LatticeView::Vals(t)) => {
            assert(s.subset_of(s.union(t)));
            assert(t.subset_of(s.union(t)));
        },
        _ => {},
    }
}

/// Join is the least upper bound: any value above both arguments is
/// above the join.
pub proof fn lemma_join_least_upper_bound(
    a: LatticeView,
    b: LatticeView,
    c: LatticeView,
    max: nat,
)
    requires
        view_wf(a, max),
        view_wf(b, max),
        view_wf(c, max),
        view_le(a, c),
        view_le(b, c),
    ensures
        view_le(spec_join(a, b, max), c),
{
    match (a, b, c) {
        (LatticeView::Vals(s), LatticeView::Vals(t), LatticeView::Vals(u)) => {
            assert(s.union(t).subset_of(u));
            lemma_len_subset(s.union(t), u);
        },
        _ => {},
    }
}

/// The order is reflexive on well-formed views.
pub proof fn lemma_le_reflexive(a: LatticeView)
    ensures
        view_le(a, a),
{
}

/// The order is transitive.
pub proof fn lemma_le_transitive(a: LatticeView, b: LatticeView, c: LatticeView)
    requires
        view_le(a, b),
        view_le(b, c),
    ensures
        view_le(a, c),
{
}

/// The order is antisymmetric.
pub proof fn lemma_le_antisymmetric(a: LatticeView, b: LatticeView)
    requires
        view_le(a, b),
        view_le(b, a),
    ensures
        a == b,
{
    match (a, b) {
        (LatticeView::Vals(s), LatticeView::Vals(t)) => {
            assert(s =~= t);
        },
        _ => {},
    }
}

/// A strictly sorted sequence has no duplicates, so its length is the
/// cardinality of its set.
pub proof fn lemma_sorted_strict_card(s: Seq<Constant>)
    requires
        sorted_strict(s),
    ensures
        s.to_set().finite(),
        s.to_set().len() == s.len(),
{
    assert forall|i: int, j: int| 0 <= i < s.len() && 0 <= j < s.len() && i != j implies s[i]
        != s[j] by {
        if i < j {
            assert(const_lt(s[i], s[j]));
        } else {
            assert(const_lt(s[j], s[i]));
        }
    }
    assert(s.no_duplicates());
    s.unique_seq_to_set();
}

/// Two strictly sorted vectors holding the same set are equal: the
/// representation of a value set is canonical.
pub proof fn lemma_sorted_strict_same_set(s: Seq<Constant>, t: Seq<Constant>)
    requires
        sorted_strict(s),
        sorted_strict(t),
        s.to_set() == t.to_set(),
    ensures
        s == t,
    decreases s.len(),
{
    if s.len() == 0 {
        if t.len() > 0 {
            assert(t.to_set().contains(t[0]));
            assert(s.to_set().contains(t[0]));
            let k = choose|k: int| 0 <= k < s.len() && s[k] == t[0];
        }
        assert(s =~= t);
    } else {
        assert(s.to_set().contains(s[0]));
        assert(t.to_set().contains(s[0]));
        let j = choose|j: int| 0 <= j < t.len() && t[j] == s[0];
        assert(t.to_set().contains(t[0]));
        assert(s.to_set().contains(t[0]));
        let k = choose|k: int| 0 <= k < s.len() && s[k] == t[0];
        if j > 0 {
            assert(const_lt(t[0], t[j]));
            if k > 0 {
                assert(const_lt(s[0], s[k]));
            }
            assert(false);
        }
        assert(s[0] == t[0]);
        let s2 = s.subrange(1, s.len() as int);
        let t2 = t.subrange(1, t.len() as int);
        assert forall|x: Constant| s2.to_set().contains(x) implies t2.to_set().contains(x) by {
            let i = choose|i: int| 0 <= i < s2.len() && s2[i] == x;
            assert(s[i + 1] == x);
            assert(s.to_set().contains(x));
            assert(t.to_set().contains(x));
            let j2 = choose|j2: int| 0 <= j2 < t.len() && t[j2] == x;
            assert(const_lt(s[0], s[i + 1]));
            if j2 == 0 {
                assert(x == t[0]);
                assert(false);
            }
            assert(t2[j2 - 1] == x);
        }
        assert forall|x: Constant| t2.to_set().contains(x) implies s2.to_set().contains(x) by {
            let i = choose|i: int| 0 <= i < t2.len() && t2[i] == x;
            assert(t[i + 1] == x);
            assert(t.to_set().contains(x));
            assert(s.to_set().contains(x));
            let j2 = choose|j2: int| 0 <= j2 < s.len() && s[j2] == x;
            assert(const_lt(t[0], t[i + 1]));
            if j2 == 0 {
                assert(x == s[0]);
                assert(false);
            }
            assert(s2[j2 - 1] == x);
        }
        assert(s2.to_set() =~= t2.to_set());
        lemma_sorted_strict_same_set(s2, t2);
        assert(s.len() == t.len());
        assert forall|i: int| 0 <= i < s.len() implies s[i] == t[i] by {
            if i > 0 {
                assert(s2[i - 1] == t2[i - 1]);
            }
        }
        assert(s =~= t);
    }
}

/// Insert a constant into a strictly sorted vector, keeping it sorted.
pub fn values_insert(v: &mut Vec<Constant>, c: Constant)
    requires
        sorted_strict(old(v)@),
        all_wf(old(v)@),
        c.wf(),
    ensures
        sorted_strict(final(v)@),
        all_wf(final(v)@),
        final(v)@.to_set() == old(v)@.to_set().insert(c),
        old(v)@.len() <= final(v)@.len() <= old(v)@.len() + 1,
{
    let ghost orig = v@;
    let mut i: usize = 0;
    while i < v.len() && const_less(&v[i], &c)
        invariant
            0 <= i <= v@.len(),
            v@ == orig,
            forall|k: int| 0 <= k < i ==> const_lt(#[trigger] v@[k], c),
            sorted_strict(v@),
            all_wf(v@),
            c.wf(),
        decreases v@.len() - i,
    {
        i = i + 1;
    }
    if i < v.len() && v[i].value == c.value && v[i].bits == c.bits {
        proof {
            assert(v@[i as int] == c);
            assert(v@.to_set().contains(c));
            assert(v@.to_set() =~= orig.to_set().insert(c));
        }
    } else {
        proof {
            assert(forall|k: int|
                i <= k < v@.len() ==> !const_lt(#[trigger] v@[k], c) && v@[k] != c);
            assert(forall|k: int| i <= k < v@.len() ==> const_lt(c, #[trigger] v@[k]));
        }
        v.insert(i, c);
        proof {
            assert(v@ == orig.insert(i as int, c));
            assert forall|x: Constant| v@.to_set().contains(x) implies orig.to_set().insert(
                c,
            ).contains(x) by {
                let k = choose|k: int| 0 <= k < v@.len() && v@[k] == x;
                if k < i {
                    assert(orig[k] == x);
                    assert(orig.to_set().contains(x));
                } else if k == i {
                } else {
                    assert(orig[k - 1] == x);
                    assert(orig.to_set().contains(x));
                }
            }
            assert forall|x: Constant| orig.to_set().insert(c).contains(x) implies
                v@.to_set().contains(x) by {
                if x == c {
                    assert(v@[i as int] == c);
                } else {
                    let k = choose|k: int| 0 <= k < orig.len() && orig[k] == x;
                    if k < i {
                        assert(v@[k] == x);
                    } else {
                        assert(v@[k + 1] == x);
                    }
                }
            }
            assert(v@.to_set() =~= orig.to_set().insert(c));
        }
    }
}

/// Copy a vector of constants.
pub fn copy_constants(v: &Vec<Constant>) -> (r: Vec<Constant>)
    ensures
        r@ == v@,
{
    let mut out: Vec<Constant> = Vec::new();
    let mut i: usize = 0;
    while i < v.len()
        invariant
            0 <= i <= v@.len(),
            out@ == v@.take(i as int),
        decreases v@.len() - i,
    {
        out.push(v[i]);
        proof {
            assert(out@ =~= v@.take(i + 1));
        }
        i = i + 1;
    }
    proof {
        assert(out@ =~= v@);
    }
    out
}

/// The set of the first `j` elements of a sequence.
pub open spec fn prefix_set(s: Seq<Constant>, j: int) -> Set<Constant> {
    Set::new(|c: Constant| exists|l: int| 0 <= l < j && s[l] == c)
}

/// The set a sequence holds, expressed through indices.
pub proof fn lemma_prefix_set_full(s: Seq<Constant>)
    ensures
        prefix_set(s, s.len() as int) == s.to_set(),
{
    assert forall|c: Constant| #[trigger] s.to_set().contains(c) implies prefix_set(
        s,
        s.len() as int,
    ).contains(c) by {
        let l = choose|l: int| 0 <= l < s.len() && s[l] == c;
        assert(0 <= l < s.len() && s[l] == c);
    }
    assert(prefix_set(s, s.len() as int) =~= s.to_set());
}

impl LatticeValue {
    /// Join with another lattice value under the bound `max`: top
    /// absorbs, bottom is the identity, value sets are united and widened
    /// to `Join` once past `max` elements.
    pub fn join(&self, other: &LatticeValue, max: usize) -> (r: LatticeValue)
        requires
            self.wf(max as nat),
            other.wf(max as nat),
            max >= 1,
        ensures
            r@ == spec_join(self@, other@, max as nat),
            r.wf(max as nat),
    {
        match (self, other) {
            (LatticeValue::Join, _) => LatticeValue::Join,
            (_, LatticeValue::Join) => LatticeValue::Join,
            (LatticeValue::Meet, x) => x.clone(),
            (x, LatticeValue::Meet) => x.clone(),
            (LatticeValue::Values(va), LatticeValue::Values(vb)) => {
                let mut out: Vec<Constant> = copy_constants(va);
                let ghost sa = va@.to_set();
                proof {
                    assert(out@.to_set() =~= sa.union(prefix_set(vb@, 0)));
                }
                let mut j: usize = 0;
                while j < vb.len()
                    invariant
                        0 <= j <= vb@.len(),
                        sorted_strict(out@),
                        all_wf(out@),
                        all_wf(vb@),
                        out@.to_set() == sa.union(prefix_set(vb@, j as int)),
                    decreases vb@.len() - j,
                {
                    let c = vb[j];
                    let ghost before = out@.to_set();
                    values_insert(&mut out, c);
                    proof {
                        assert forall|x: Constant| #[trigger] sa.union(
                            prefix_set(vb@, j + 1),
                        ).contains(x) implies before.insert(c).contains(x) by {
                            if sa.contains(x) {
                            } else {
                                let l = choose|l: int| 0 <= l < j + 1 && vb@[l] == x;
                                if l < j {
                                    assert(prefix_set(vb@, j as int).contains(x));
                                }
                            }
                        }
                        assert forall|x: Constant| #[trigger] before.insert(c).contains(x) implies
                            sa.union(prefix_set(vb@, j + 1)).contains(x) by {
                            if x == c {
                                assert(0 <= j < j + 1 && vb@[j as int] == x);
                            } else if prefix_set(vb@, j as int).contains(x) {
                                let l = choose|l: int| 0 <= l < j && vb@[l] == x;
                                assert(0 <= l < j + 1 && vb@[l] == x);
                            }
                        }
                        assert(out@.to_set() =~= sa.union(prefix_set(vb@, j + 1)));
                    }
                    j = j + 1;
                }
                proof {
                    lemma_prefix_set_full(vb@);
                    lemma_sorted_strict_card(out@);
                    lemma_sorted_strict_card(va@);
                    assert(sa.union(vb@.to_set()).contains(va@[0]));
                }
                if out.len() > max {
                    LatticeValue::Join
                } else {
                    LatticeValue::Values(out)
                }
            },
        }
    }
}

/// The image of two constant sets under a binary operator.
pub open spec fn binop_image(op: BinOp, s: Set<Constant>, t: Set<Constant>) -> Set<Constant> {
    Set::new(
        |c: Constant|
            exists|x: Constant, y: Constant|
                s.contains(x) && t.contains(y) && c == spec_binop(op, x, y),
    )
}

/// The image of a constant set under a unary operator.
pub open spec fn unop_image(op: UnOp, s: Set<Constant>) -> Set<Constant> {
    Set::new(|c: Constant| exists|x: Constant| s.contains(x) && c == spec_unop(op, x))
}

/// Abstract application of a binary operator: `Join op x` is `Join`,
/// `Meet` is absorbing against anything but `Join`, and value sets
/// combine pointwise, widened to `Join` past the bound.
pub open spec fn spec_lattice_binop(op: BinOp, a: LatticeView, b: LatticeView, max: nat)
    -> LatticeView {
    match (a, b) {
        (LatticeView::Top, _) => LatticeView::Top,
        (_, LatticeView::Top) => LatticeView::Top,
        (LatticeView::Bot, _) => LatticeView::Bot,
        (_, LatticeView::Bot) => LatticeView::Bot,
        (LatticeView::Vals(s), LatticeView::Vals(t)) => if binop_image(op, s, t).len() <= max {
            LatticeView::Vals(binop_image(op, s, t))
        } else {
            LatticeView::Top
        },
    }
}

/// Abstract application of a unary operator.
pub open spec fn spec_lattice_unop(op: UnOp, a: LatticeView, max: nat) -> LatticeView {
    match a {
        LatticeView::Top => LatticeView::Top,
        LatticeView::Bot => LatticeView::Bot,
        LatticeView::Vals(s) => if unop_image(op, s).len() <= max {
            LatticeView::Vals(unop_image(op, s))
        } else {
            LatticeView::Top
        },
    }
}

/// The pairs already combined after `i` full outer rounds and `j` steps
/// of the current round.
pub open spec fn partial_binop_image(
    op: BinOp,
    s: Seq<Constant>,
    t: Seq<Constant>,
    i: int,
    j: int,
) -> Set<Constant> {
    Set::new(
        |c: Constant|
            exists|k: int, l: int|
                0 <= k < s.len() && 0 <= l < t.len() && (k < i || (k == i && l < j)) && c
                    == spec_binop(op, s[k], t[l]),
    )
}

/// Apply a binary operator to two value-set vectors.
fn binop_values(op: BinOp, va: &Vec<Constant>, vb: &Vec<Constant>, max: usize) -> (r: LatticeValue)
    requires
        sorted_strict(va@),
        sorted_strict(vb@),
        all_wf(va@),
        all_wf(vb@),
        1 <= va@.len(),
        1 <= vb@.len(),
        max >= 1,
    ensures
        r@ == spec_lattice_binop(op, LatticeView::Vals(va@.to_set()), LatticeView::Vals(vb@.to_set()), max as nat),
        r.wf(max as nat),
{
    let mut out: Vec<Constant> = Vec::new();
    proof {
        assert(out@.to_set() =~= partial_binop_image(op, va@, vb@, 0, 0));
    }
    let mut i: usize = 0;
    while i < va.len()
        invariant
            0 <= i <= va@.len(),
            sorted_strict(out@),
            all_wf(out@),
            sorted_strict(va@),
            sorted_strict(vb@),
            all_wf(va@),
            all_wf(vb@),
            1 <= vb@.len(),
            out@.to_set() == partial_binop_image(op, va@, vb@, i as int, 0),
        decreases va@.len() - i,
    {
        let mut j: usize = 0;
        while j < vb.len()
            invariant
                0 <= i < va@.len(),
                0 <= j <= vb@.len(),
                sorted_strict(out@),
                all_wf(out@),
                sorted_strict(va@),
                sorted_strict(vb@),
                all_wf(va@),
                all_wf(vb@),
                out@.to_set() == partial_binop_image(op, va@, vb@, i as int, j as int),
            decreases vb@.len() - j,
        {
            let c = Constant::binop(op, &va[i], &vb[j]);
            let ghost before = out@.to_set();
            values_insert(&mut out, c);
            proof {
                assert forall|x: Constant| #[trigger] partial_binop_image(
                    op,
                    va@,
                    vb@,
                    i as int,
                    j + 1,
                ).contains(x) implies before.insert(c).contains(x) by {
                    let (k, l) = choose|k: int, l: int|
                        0 <= k < va@.len() && 0 <= l < vb@.len() && (k < i || (k == i && l < j + 1))
                            && x == spec_binop(op, va@[k], vb@[l]);
                    if k < i || (k == i && l < j) {
                        assert(partial_binop_image(op, va@, vb@, i as int, j as int).contains(x));
                    }
                }
                assert forall|x: Constant| #[trigger] before.insert(c).contains(x) implies
                    partial_binop_image(op, va@, vb@, i as int, j + 1).contains(x) by {
                    if x == c {
                        assert(0 <= i < va@.len() && 0 <= j < vb@.len() && x == spec_binop(
                            op,
                            va@[i as int],
                            vb@[j as int],
                        ));
                    } else {
                        let (k, l) = choose|k: int, l: int|
                            0 <= k < va@.len() && 0 <= l < vb@.len() && (k < i || (k == i && l < j))
                                && x == spec_binop(op, va@[k], vb@[l]);
                        assert(0 <= k < va@.len() && 0 <= l < vb@.len() && (k < i || (k == i && l
                            < j + 1)) && x == spec_binop(op, va@[k], vb@[l]));
                    }
                }
                assert(out@.to_set() =~= partial_binop_image(op, va@, vb@, i as int, j + 1));
            }
            j = j + 1;
        }
        proof {
            assert(out@.to_set() =~= partial_binop_image(op, va@, vb@, i + 1, 0));
        }
        i = i + 1;
    }
    proof {
        let image = binop_image(op, va@.to_set(), vb@.to_set());
        assert forall|x: Constant| #[trigger] image.contains(x) implies partial_binop_image(
            op,
            va@,
            vb@,
            va@.len() as int,
            0,
        ).contains(x) by {
            let (a, b) = choose|a: Constant, b: Constant|
                va@.to_set().contains(a) && vb@.to_set().contains(b) && x == spec_binop(op, a, b);
            let k = choose|k: int| 0 <= k < va@.len() && va@[k] == a;
            let l = choose|l: int| 0 <= l < vb@.len() && vb@[l] == b;
            assert(0 <= k < va@.len() && 0 <= l < vb@.len() && k < va@.len() && x == spec_binop(
                op,
                va@[k],
                vb@[l],
            ));
        }
        assert forall|x: Constant| #[trigger] partial_binop_image(
            op,
            va@,
            vb@,
            va@.len() as int,
            0,
        ).contains(x) implies image.contains(x) by {
            let (k, l) = choose|k: int, l: int|
                0 <= k < va@.len() && 0 <= l < vb@.len() && (k < va@.len() || (k == va@.len() && l
                    < 0)) && x == spec_binop(op, va@[k], vb@[l]);
            assert(va@.to_set().contains(va@[k]));
            assert(vb@.to_set().contains(vb@[l]));
        }
        assert(out@.to_set() =~= image);
        lemma_sorted_strict_card(out@);
        assert(image.contains(spec_binop(op, va@[0], vb@[0]))) by {
            assert(va@.to_set().contains(va@[0]));
            assert(vb@.to_set().contains(vb@[0]));
        }
    }
    if out.len() > max {
        LatticeValue::Join
    } else {
        LatticeValue::Values(out)
    }
}

/// Apply a unary operator to a value-set vector. Every constant must be
/// in the operator's domain.
fn unop_values(op: UnOp, va: &Vec<Constant>, max: usize) -> (r: LatticeValue)
    requires
        sorted_strict(va@),
        all_wf(va@),
        1 <= va@.len(),
        max >= 1,
        forall|k: int| 0 <= k < va@.len() ==> op.ok_for((#[trigger] va@[k]).bits),
    ensures
        r@ == spec_lattice_unop(op, LatticeView::Vals(va@.to_set()), max as nat),
        r.wf(max as nat),
{
    let mut out: Vec<Constant> = Vec::new();
    let ghost image = unop_image(op, va@.to_set());
    proof {
        assert(out@.to_set() =~= Set::<Constant>::new(
            |c: Constant| exists|l: int| 0 <= l < 0 && c == spec_unop(op, va@[l]),
        ));
    }
    let mut j: usize = 0;
    while j < va.len()
        invariant
            0 <= j <= va@.len(),
            sorted_strict(out@),
            all_wf(out@),
            sorted_strict(va@),
            all_wf(va@),
            forall|k: int| 0 <= k < va@.len() ==> op.ok_for((#[trigger] va@[k]).bits),
            out@.to_set() == Set::<Constant>::new(
                |c: Constant| exists|l: int| 0 <= l < j && c == spec_unop(op, va@[l]),
            ),
        decreases va@.len() - j,
    {
        let c = Constant::unop(op, &va[j]);
        let ghost before = out@.to_set();
        values_insert(&mut out, c);
        proof {
            let after = Set::<Constant>::new(
                |x: Constant| exists|l: int| 0 <= l < j + 1 && x == spec_unop(op, va@[l]),
            );
            assert forall|x: Constant| #[trigger] after.contains(x) implies before.insert(
                c,
            ).contains(x) by {
                let l = choose|l: int| 0 <= l < j + 1 && x == spec_unop(op, va@[l]);
                if l < j {
                    assert(before.contains(x));
                }
            }
            assert forall|x: Constant| #[trigger] before.insert(c).contains(x) implies
                after.contains(x) by {
                if x == c {
                    assert(0 <= j < j + 1 && x == spec_unop(op, va@[j as int]));
                } else {
                    let l = choose|l: int| 0 <= l < j && x == spec_unop(op, va@[l]);
                    assert(0 <= l < j + 1 && x == spec_unop(op, va@[l]));
                }
            }
            assert(out@.to_set() =~= after);
        }
        j = j + 1;
    }
    proof {
        assert forall|x: Constant| #[trigger] image.contains(x) implies out@.to_set().contains(
            x,
        ) by {
            let a = choose|a: Constant| va@.to_set().contains(a) && x == spec_unop(op, a);
            let l = choose|l: int| 0 <= l < va@.len() && va@[l] == a;
            assert(0 <= l < va@.len() && x == spec_unop(op, va@[l]));
        }
        assert forall|x: Constant| #[trigger] out@.to_set().contains(x) implies image.contains(
            x,
        ) by {
            let l = choose|l: int| 0 <= l < va@.len() && x == spec_unop(op, va@[l]);
            assert(va@.to_set().contains(va@[l]));
        }
        assert(out@.to_set() =~= image);
        lemma_sorted_strict_card(out@);
        assert(image.contains(spec_unop(op, va@[0]))) by {
            assert(va@.to_set().contains(va@[0]));
        }
    }
    if out.len() > max {
        LatticeValue::Join
    } else {
        LatticeValue::Values(out)
    }
}

impl LatticeValue {
    /// Abstract binary operator application under the bound `max`.
    pub fn binop(op: BinOp, a: &LatticeValue, b: &LatticeValue, max: usize) -> (r: LatticeValue)
        requires
            a.wf(max as nat),
            b.wf(max as nat),
            max >= 1,
        ensures
            r@ == spec_lattice_binop(op, a@, b@, max as nat),
            r.wf(max as nat),
    {
        match (a, b) {
            (LatticeValue::Join, _) => LatticeValue::Join,
            (_, LatticeValue::Join) => LatticeValue::Join,
            (LatticeValue::Meet, _) => LatticeValue::Meet,
            (_, LatticeValue::Meet) => LatticeValue::Meet,
            (LatticeValue::Values(va), LatticeValue::Values(vb)) => binop_values(op, va, vb, max),
        }
    }

    /// Whether every constant held is in the unary operator's domain.
    pub open spec fn unop_ok(self, op: UnOp) -> bool {
        match self {
            LatticeValue::Values(v) => forall|k: int|
                0 <= k < v@.len() ==> op.ok_for((#[trigger] v@[k]).bits),
            _ => true,
        }
    }

    /// Abstract unary operator application under the bound `max`.
    pub fn unop(op: UnOp, a: &LatticeValue, max: usize) -> (r: Option<LatticeValue>)
        requires
            a.wf(max as nat),
            max >= 1,
        ensures
            a.unop_ok(op) <==> r is Some,
            r matches Some(v) ==> v@ == spec_lattice_unop(op, a@, max as nat) && v.wf(max as nat),
    {
        match a {
            LatticeValue::Join => Some(LatticeValue::Join),
            LatticeValue::Meet => Some(LatticeValue::Meet),
            LatticeValue::Values(va) => {
                let mut k: usize = 0;
                while k < va.len()
                    invariant
                        0 <= k <= va@.len(),
                        *a == LatticeValue::Values(*va),
                        forall|l: int| 0 <= l < k ==> op.ok_for((#[trigger] va@[l]).bits),
                    decreases va@.len() - k,
                {
                    let ok = match op {
                        UnOp::Zext(b) => va[k].bits <= b && b <= 64,
                        UnOp::Trunc(b) => 1 <= b && b <= va[k].bits,
                        UnOp::SwapBytes => va[k].bits % 8 == 0,
                    };
                    if !ok {
                        proof {
                            assert(!op.ok_for(va@[k as int].bits));
                            assert(!a.unop_ok(op)) by {
                                if a.unop_ok(op) {
                                    assert(op.ok_for((va@[k as int]).bits));
                                }
                            }
                        }
                        return None;
                    }
                    k = k + 1;
                }
                Some(unop_values(op, va, max))
            },
        }
    }
}

} // verus!
