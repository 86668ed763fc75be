//! The symbolic engine: one execution path's scalar valuation, symbolic
//! memory, and accumulated path assertions. Never shared between paths;
//! forking clones it.

use vstd::prelude::*;
use crate::error::Error;
use crate::il::{Constant, Expression, Operation, Scalar, spec_binop, spec_unop};
use crate::memory::{SymbolicMemory, byte_source, spec_extract_byte};
use crate::value_set::Endian;

verus! {

/// The mapping a valuation sequence denotes: later entries override.
pub open spec fn valuation_map(s: Seq<(Scalar, Expression)>) -> Map<Scalar, Expression>
    decreases s.len(),
{
    if s.len() == 0 {
        Map::empty()
    } else {
        valuation_map(s.drop_last()).insert(s.last().0, s.last().1)
    }
}

/// A key is in the denoted mapping exactly when some entry carries it.
pub proof fn lemma_valuation_dom(s: Seq<(Scalar, Expression)>)
    ensures
        forall|k: Scalar|
            #[trigger] valuation_map(s).contains_key(k) <==> exists|i: int|
                0 <= i < s.len() && (#[trigger] s[i]).0 == k,
    decreases s.len(),
{
    if s.len() > 0 {
        lemma_valuation_dom(s.drop_last());
        assert forall|k: Scalar| #[trigger] valuation_map(s).contains_key(k) implies exists|i: int|
            0 <= i < s.len() && (#[trigger] s[i]).0 == k by {
            if k == s.last().0 {
                assert(s[s.len() - 1].0 == k);
            } else {
                assert(valuation_map(s.drop_last()).contains_key(k));
                let i = choose|i: int| 0 <= i < s.len() - 1 && (#[trigger] s.drop_last()[i]).0 == k;
                assert(s[i].0 == k);
            }
        }
        assert forall|k: Scalar|
            (exists|i: int| 0 <= i < s.len() && (#[trigger] s[i]).0 == k) implies #[trigger]
            valuation_map(s).contains_key(k) by {
            let i = choose|i: int| 0 <= i < s.len() && (#[trigger] s[i]).0 == k;
            if i < s.len() - 1 {
                assert(s.drop_last()[i].0 == k);
                assert(valuation_map(s.drop_last()).contains_key(k));
            }
        }
    }
}

/// The mapping's value at a key is the latest entry carrying it.
pub proof fn lemma_valuation_last(s: Seq<(Scalar, Expression)>, j: int, k: Scalar)
    requires
        0 <= j < s.len(),
        s[j].0 == k,
        forall|l: int| j < l < s.len() ==> (#[trigger] s[l]).0 != k,
    ensures
        valuation_map(s).contains_key(k),
        valuation_map(s)[k] == s[j].1,
    decreases s.len(),
{
    if j == s.len() - 1 {
    } else {
        assert(s.last().0 != k);
        assert(s.drop_last()[j].0 == k);
        lemma_valuation_last(s.drop_last(), j, k);
    }
}

/// The constant an expression concretely evaluates to under a scalar
/// valuation, if the valuation pins every scalar in it to a constant.
pub open spec fn spec_concretize(e: Expression, vm: Map<Scalar, Expression>) -> Option<Constant>
    decreases e,
{
    match e {
        Expression::Scalar(s) => if vm.contains_key(s) {
            match vm[s] {
                Expression::Constant(c) => Some(c),
                _ => None,
            }
        } else {
            None
        },
        Expression::Constant(c) => Some(c),
        Expression::Binop(op, l, r) => match (spec_concretize(*l, vm), spec_concretize(*r, vm)) {
            (Some(a), Some(b)) => Some(spec_binop(op, a, b)),
            _ => None,
        },
        Expression::Unop(op, e2) => match spec_concretize(*e2, vm) {
            Some(c) => if op.ok_for(c.bits) {
                Some(spec_unop(op, c))
            } else {
                None
            },
            None => None,
        },
    }
}

/// The expression a scalar is bound to after an assignment: the folded
/// constant where the source is fully concrete, the source itself
/// otherwise.
pub open spec fn spec_assigned(e: Expression, vm: Map<Scalar, Expression>) -> Expression {
    match spec_concretize(e, vm) {
        Some(c) => Expression::Constant(c),
        None => e,
    }
}

/// When executing an operation succeeds: always for an assignment, a
/// branch, or a phi; for a store or a load, exactly when the address
/// concretizes, the accessed width is a whole number of bytes up to a
/// word, and the byte range does not wrap the address space.
pub open spec fn spec_execute_ok(op: Operation, vm: Map<Scalar, Expression>) -> bool {
    match op {
        Operation::Assign { .. } => true,
        Operation::Brc { .. } => true,
        Operation::Phi { .. } => true,
        Operation::Store { address, src } => {
            let a = spec_concretize(address, vm);
            let b = spec_assigned(src, vm).spec_bits();
            &&& a is Some
            &&& b % 8 == 0
            &&& 8 <= b <= 64
            &&& a->Some_0.value + (b / 8) as int - 1 <= u64::MAX as int
        },
        Operation::Load { dst, address } => {
            let a = spec_concretize(address, vm);
            &&& a is Some
            &&& dst.bits % 8 == 0
            &&& 8 <= dst.bits <= 64
            &&& a->Some_0.value + (dst.bits / 8) as int - 1 <= u64::MAX as int
        },
    }
}

/// One execution path's state: a symbolic memory, a scalar valuation,
/// and the monotonically growing sequence of path assertions.
pub struct SymbolicEngine {
    pub memory: SymbolicMemory,
    pub scalars: Vec<(Scalar, Expression)>,
    pub assertions: Vec<Expression>,
}

impl SymbolicEngine {
    /// Well-formed: memory well-formed, every valuation and assertion
    /// expression well-formed.
    pub open spec fn wf(self) -> bool {
        &&& self.memory.wf()
        &&& forall|i: int|
            0 <= i < self.scalars@.len() ==> (#[trigger] self.scalars@[i]).0.wf()
                && self.scalars@[i].1.wf()
        &&& forall|i: int| 0 <= i < self.assertions@.len() ==> (#[trigger] self.assertions@[i]).wf()
    }

    /// The valuation the engine denotes.
    pub open spec fn valuation(self) -> Map<Scalar, Expression> {
        valuation_map(self.scalars@)
    }

    pub fn new(memory: SymbolicMemory) -> (r: SymbolicEngine)
        requires
            memory.wf(),
        ensures
            r.wf(),
            r.memory == memory,
            r.valuation() == Map::<Scalar, Expression>::empty(),
            r.assertions@ == Seq::<Expression>::empty(),
    {
        SymbolicEngine { memory, scalars: Vec::new(), assertions: Vec::new() }
    }

    /// Bind a scalar to an expression.
    pub fn set_scalar(&mut self, s: Scalar, e: Expression)
        requires
            old(self).wf(),
            s.wf(),
            e.wf(),
        ensures
            final(self).wf(),
            final(self).valuation() == old(self).valuation().insert(s, e),
            final(self).memory == old(self).memory,
            final(self).assertions@ == old(self).assertions@,
    {
        let ghost orig = self.scalars@;
        self.scalars.push((s, e));
        proof {
            assert(self.scalars@.drop_last() =~= orig);
            assert(self.scalars@.last() == (s, e));
        }
    }

    /// The expression a scalar is bound to, if any.
    pub fn get_scalar(&self, s: &Scalar) -> (r: Option<&Expression>)
        requires
            self.wf(),
        ensures
            match r {
                Some(e) => self.valuation().contains_key(*s) && *e == self.valuation()[*s]
                    && e.wf(),
                None => !self.valuation().contains_key(*s),
            },
    {
        let n = self.scalars.len();
        let mut i: usize = n;
        while i > 0
            invariant
                0 <= i <= n,
                n == self.scalars@.len(),
                self.wf(),
                forall|l: int| i <= l < n ==> (#[trigger] self.scalars@[l]).0 != *s,
            decreases i,
        {
            i = i - 1;
            if self.scalars[i].0.name == s.name && self.scalars[i].0.bits == s.bits {
                proof {
                    assert(self.scalars@[i as int].0 == *s);
                    lemma_valuation_last(self.scalars@, i as int, *s);
                }
                return Some(&self.scalars[i].1);
            }
        }
        proof {
            lemma_valuation_dom(self.scalars@);
        }
        None
    }

    /// Record one more path assertion; assertions are only ever
    /// appended, never removed.
    pub fn add_assertion(&mut self, e: Expression)
        requires
            old(self).wf(),
            e.wf(),
        ensures
            final(self).wf(),
            final(self).assertions@ == old(self).assertions@.push(e),
            final(self).valuation() == old(self).valuation(),
            final(self).memory == old(self).memory,
    {
        self.assertions.push(e);
    }

    /// The path assertions accumulated so far.
    pub fn assertions(&self) -> (r: &Vec<Expression>)
        ensures
            r == &self.assertions,
    {
        &self.assertions
    }

    /// Evaluate an expression to a single concrete constant under the
    /// current valuation, if it has one.
    pub fn concretize(&self, e: &Expression) -> (r: Option<Constant>)
        requires
            self.wf(),
            e.wf(),
        ensures
            r == spec_concretize(*e, self.valuation()),
            r matches Some(c) ==> c.wf(),
        decreases *e,
    {
        match e {
            Expression::Scalar(s) => match self.get_scalar(s) {
                Some(b) => match b {
                    Expression::Constant(c) => Some(*c),
                    _ => None,
                },
                None => None,
            },
            Expression::Constant(c) => Some(*c),
            Expression::Binop(op, l, r) => match (self.concretize(l), self.concretize(r)) {
                (Some(a), Some(b)) => Some(Constant::binop(*op, &a, &b)),
                _ => None,
            },
            Expression::Unop(op, e2) => match self.concretize(e2) {
                Some(c) => {
                    let ok = match op {
                        crate::il::UnOp::Zext(b) => c.bits <= *b && *b <= 64,
                        crate::il::UnOp::Trunc(b) => 1 <= *b && *b <= c.bits,
                        crate::il::UnOp::SwapBytes => c.bits % 8 == 0,
                    };
                    if ok {
                        Some(Constant::unop(*op, &c))
                    } else {
                        None
                    }
                },
                None => None,
            },
        }
    }

    /// Execute one IL operation against this path's state: assignments
    /// update the valuation (folding fully concrete sources), stores and
    /// loads go through the symbolic memory at a concrete address, a
    /// conditional branch leaves the state to the edge handling, and a
    /// phi is not executed (it belongs to the dataflow analysis).
    pub fn execute(&mut self, operation: &Operation) -> (r: Result<(), Error>)
        requires
            old(self).wf(),
            operation.wf(),
        ensures
            final(self).wf(),
            final(self).assertions@ == old(self).assertions@,
            final(self).memory.endian == old(self).memory.endian,
            final(self).memory.word_size == old(self).memory.word_size,
            (r is Ok) == spec_execute_ok(*operation, old(self).valuation()),
            r matches Ok(u) ==> match *operation {
                Operation::Assign { dst, src } => {
                    &&& final(self).valuation() == old(self).valuation().insert(
                        dst,
                        spec_assigned(src, old(self).valuation()),
                    )
                    &&& final(self).memory == old(self).memory
                },
                Operation::Store { address, src } => {
                    let a = spec_concretize(address, old(self).valuation())->Some_0.value;
                    let e = spec_assigned(src, old(self).valuation());
                    let n = (e.spec_bits() / 8) as int;
                    let little = old(self).memory.endian == Endian::Little;
                    &&& final(self).valuation() == old(self).valuation()
                    &&& forall|k: int|
                        0 <= k < n ==> final(self).memory.view_map().contains_key(
                            #[trigger] ((a + k) as u64),
                        ) && final(self).memory.view_map()[(a + k) as u64] == spec_extract_byte(
                            e,
                            byte_source(little, (e.spec_bits() / 8) as u32, k as u32),
                        )
                    &&& forall|ad: u64|
                        (ad < a || ad as int >= a as int + n) ==> (
                        final(self).memory.view_map().contains_key(ad) == old(self).memory.view_map().contains_key(ad) && (old(self).memory.view_map().contains_key(ad) ==> final(self).memory.view_map()[ad]
                            == old(self).memory.view_map()[ad]))
                },
                Operation::Load { dst, address } => {
                    let a = spec_concretize(address, old(self).valuation())->Some_0.value;
                    let little = old(self).memory.endian == Endian::Little;
                    &&& (exists|le: Expression|
                        #![trigger old(self).valuation().insert(dst, le)]
                        le.wf() && le.spec_bits() == dst.bits && final(self).valuation() == old(self).valuation().insert(dst, le))
                    &&& forall|ad: u64|
                        old(self).memory.view_map().contains_key(ad) ==> final(self).memory.view_map().contains_key(ad) && final(self).memory.view_map()[ad]
                            == old(self).memory.view_map()[ad]
                    &&& SymbolicMemory::spec_load_constant(
                        old(self).memory.view_map(),
                        a,
                        little,
                        dst.bits / 8,
                    ) matches Some(c) ==> final(self).memory.view_map() == old(self).memory.view_map() && final(self).valuation() == old(self).valuation().insert(dst, Expression::Constant(c))
                },
                Operation::Brc { .. } => *final(self) == *old(self),
                Operation::Phi { .. } => *final(self) == *old(self),
            },
            r matches Err(e) ==> *final(self) == *old(self) && (e == Error::AddressUnresolved || e
                == Error::EvaluationWidth),
    {
        match operation {
            Operation::Assign { dst, src } => {
                let folded = match self.concretize(src) {
                    Some(c) => Expression::Constant(c),
                    None => src.clone(),
                };
                self.set_scalar(*dst, folded);
                Ok(())
            },
            Operation::Store { address, src } => {
                let a = match self.concretize(address) {
                    Some(c) => c,
                    None => {
                        return Err(Error::AddressUnresolved);
                    },
                };
                let folded = match self.concretize(src) {
                    Some(c) => Expression::Constant(c),
                    None => src.clone(),
                };
                let bits = folded.bits();
                if !(bits % 8 == 0 && 8 <= bits && bits <= 64) {
                    return Err(Error::EvaluationWidth);
                }
                let n64 = (bits / 8) as u64;
                if a.value > u64::MAX - (n64 - 1) {
                    return Err(Error::AddressUnresolved);
                }
                self.memory.store(a.value, folded);
                Ok(())
            },
            Operation::Load { dst, address } => {
                let a = match self.concretize(address) {
                    Some(c) => c,
                    None => {
                        return Err(Error::AddressUnresolved);
                    },
                };
                let bits = dst.bits;
                if !(bits % 8 == 0 && 8 <= bits && bits <= 64) {
                    return Err(Error::EvaluationWidth);
                }
                let n64 = (bits / 8) as u64;
                if a.value > u64::MAX - (n64 - 1) {
                    return Err(Error::AddressUnresolved);
                }
                let ghost vm0 = self.valuation();
                let ghost m0 = self.memory.view_map();
                let loaded = self.memory.load_or_build(a.value, bits);
                let ghost m1 = self.memory.view_map();
                proof {
                    assert forall|ad: u64| m0.contains_key(ad) implies m1.contains_key(ad)
                        && m1[ad] == m0[ad] by {
                        assert(self.memory.view_map().contains_key(ad)
                            && self.memory.view_map()[ad] == m0[ad]);
                    }
                }
                self.set_scalar(*dst, loaded);
                proof {
                    assert(self.valuation() == vm0.insert(*dst, loaded));
                    assert(self.memory.view_map() == m1);
                    assert forall|ad: u64| m0.contains_key(ad) implies
                        self.memory.view_map().contains_key(ad) && self.memory.view_map()[ad]
                            == m0[ad] by {
                        assert(m1.contains_key(ad) && m1[ad] == m0[ad]);
                    }
                }
                Ok(())
            },
            Operation::Brc { .. } => Ok(()),
            Operation::Phi { .. } => Ok(()),
        }
    }
}

impl Clone for SymbolicEngine {
    /// An independent copy of this path's state: same valuation, same
    /// memory contents, same assertions, owned separately.
    fn clone(&self) -> (r: Self)
        ensures
            r.wf() == self.wf(),
            r.valuation() == self.valuation(),
            r.memory.view_map() == self.memory.view_map(),
            r.memory.endian == self.memory.endian,
            r.memory.word_size == self.memory.word_size,
            r.assertions@ == self.assertions@,
    {
        let mut scalars: Vec<(Scalar, Expression)> = Vec::new();
        let mut i: usize = 0;
        while i < self.scalars.len()
            invariant
                0 <= i <= self.scalars@.len(),
                scalars@ == self.scalars@.take(i as int),
            decreases self.scalars@.len() - i,
        {
            scalars.push((self.scalars[i].0, self.scalars[i].1.clone()));
            proof {
                assert(scalars@ =~= self.scalars@.take(i + 1));
            }
            i = i + 1;
        }
        let mut cells: Vec<(u64, Expression)> = Vec::new();
        let mut j: usize = 0;
        while j < self.memory.cells.len()
            invariant
                0 <= j <= self.memory.cells@.len(),
                cells@ == self.memory.cells@.take(j as int),
            decreases self.memory.cells@.len() - j,
        {
            cells.push((self.memory.cells[j].0, self.memory.cells[j].1.clone()));
            proof {
                assert(cells@ =~= self.memory.cells@.take(j + 1));
            }
            j = j + 1;
        }
        let mut assertions: Vec<Expression> = Vec::new();
        let mut k: usize = 0;
        while k < self.assertions.len()
            invariant
                0 <= k <= self.assertions@.len(),
                assertions@ == self.assertions@.take(k as int),
            decreases self.assertions@.len() - k,
        {
            assertions.push(self.assertions[k].clone());
            proof {
                assert(assertions@ =~= self.assertions@.take(k + 1));
            }
            k = k + 1;
        }
        proof {
            assert(scalars@ =~= self.scalars@);
            assert(cells@ =~= self.memory.cells@);
            assert(assertions@ =~= self.assertions@);
        }
        let r = SymbolicEngine {
            memory: SymbolicMemory {
                cells,
                word_size: self.memory.word_size,
                endian: self.memory.endian,
                next_fresh: self.memory.next_fresh,
            },
            scalars,
            assertions,
        };
        proof {
            assert(r.memory.cells@ == self.memory.cells@);
            assert(r.memory.wf() == self.memory.wf());
            assert(r.scalars@ == self.scalars@);
            assert(r.assertions@ == self.assertions@);
            assert(r.wf() == self.wf());
        }
        r
    }
}

} // verus!
