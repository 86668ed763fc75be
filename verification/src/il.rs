//! The intermediate language (IL): constants, scalars, expressions,
//! operations, and the control-flow-graph structure the engines consume.

use vstd::prelude::*;

verus! {

/// Bit mask selecting the low `bits` bits of a 64-bit word.
pub open spec fn mask_of(bits: u32) -> u64
    recommends
        1 <= bits <= 64,
{
    if bits == 64 {
        0xffff_ffff_ffff_ffffu64
    } else {
        (((1u64 << (bits as u64)) as u64 - 1) as u64)
    }
}

/// Executable counterpart of `mask_of`.
pub fn mask_bits(bits: u32) -> (r: u64)
    requires
        1 <= bits <= 64,
    ensures
        r == mask_of(bits),
{
    if bits == 64 {
        0xffff_ffff_ffff_ffffu64
    } else {
        let b: u64 = bits as u64;
        proof {
            assert((1u64 << b) >= 1 && (1u64 << b) == mask_of(bits) + 1) by (bit_vector)
                requires
                    1 <= b < 64,
                    b == bits as u64,
            ;
        }
        (1u64 << b) - 1
    }
}

/// A concrete bit-vector constant: a value of a given width in bits.
#[derive(Clone, Copy, PartialEq, Eq, Structural, Debug)]
pub struct Constant {
    pub value: u64,
    pub bits: u32,
}

impl Constant {
    /// Well-formed: width between 1 and 64, and the value fits the width.
    pub open spec fn wf(self) -> bool {
        &&& 1 <= self.bits <= 64
        &&& self.value & mask_of(self.bits) == self.value
    }

    /// Build a constant, truncating the value to the requested width.
    pub fn new(value: u64, bits: u32) -> (r: Constant)
        requires
            1 <= bits <= 64,
        ensures
            r.wf(),
            r.bits == bits,
            r.value == value & mask_of(bits),
    {
        let m = mask_bits(bits);
        proof {
            lemma_mask_idem(value, m);
        }
        Constant { value: value & m, bits }
    }
}

/// Masking twice is the same as masking once.
pub proof fn lemma_mask_idem(x: u64, m: u64)
    ensures
        (x & m) & m == x & m,
{
    assert((x & m) & m == x & m) by (bit_vector);
}

/// The binary operators of the IL.
#[derive(Clone, Copy, PartialEq, Eq, Structural, Debug)]
pub enum BinOp {
    Add,
    Sub,
    Mul,
    And,
    Or,
    Xor,
    Shl,
    Shr,
    Cmpeq,
    Cmpltu,
}

impl BinOp {
    /// Comparison operators produce a one-bit result.
    pub open spec fn is_comparison(self) -> bool {
        self == BinOp::Cmpeq || self == BinOp::Cmpltu
    }
}

/// The value, before masking, that a binary operator computes. The right
/// operand of a mismatched width is taken by its raw value.
pub open spec fn spec_binop_raw(op: BinOp, a: Constant, b: Constant) -> u64 {
    match op {
        BinOp::Add => a.value.wrapping_add(b.value),
        BinOp::Sub => a.value.wrapping_sub(b.value),
        BinOp::Mul => a.value.wrapping_mul(b.value),
        BinOp::And => a.value & b.value,
        BinOp::Or => a.value | b.value,
        BinOp::Xor => a.value ^ b.value,
        BinOp::Shl => if b.value >= a.bits as u64 {
            0u64
        } else {
            a.value << b.value
        },
        BinOp::Shr => if b.value >= a.bits as u64 {
            0u64
        } else {
            a.value >> b.value
        },
        BinOp::Cmpeq => if a == b {
            1u64
        } else {
            0u64
        },
        BinOp::Cmpltu => if a.value < b.value {
            1u64
        } else {
            0u64
        },
    }
}

/// The constant a binary operator evaluates to: the raw result truncated
/// to the result width, which is 1 for comparisons and the left operand's
/// width otherwise.
pub open spec fn spec_binop(op: BinOp, a: Constant, b: Constant) -> Constant {
    let bits = if op.is_comparison() {
        1u32
    } else {
        a.bits
    };
    Constant { value: spec_binop_raw(op, a, b) & mask_of(bits), bits }
}

impl Constant {
    /// Apply a binary operator to two constants.
    pub fn binop(op: BinOp, a: &Constant, b: &Constant) -> (r: Constant)
        requires
            a.wf(),
            b.wf(),
        ensures
            r == spec_binop(op, *a, *b),
            r.wf(),
    {
        let raw: u64 = match op {
            BinOp::Add => a.value.wrapping_add(b.value),
            BinOp::Sub => a.value.wrapping_sub(b.value),
            BinOp::Mul => a.value.wrapping_mul(b.value),
            BinOp::And => a.value & b.value,
            BinOp::Or => a.value | b.value,
            BinOp::Xor => a.value ^ b.value,
            BinOp::Shl => if b.value >= a.bits as u64 {
                0u64
            } else {
                a.value << b.value
            },
            BinOp::Shr => if b.value >= a.bits as u64 {
                0u64
            } else {
                a.value >> b.value
            },
            BinOp::Cmpeq => if a.value == b.value && a.bits == b.bits {
                1u64
            } else {
                0u64
            },
            BinOp::Cmpltu => if a.value < b.value {
                1u64
            } else {
                0u64
            },
        };
        let bits: u32 = match op {
            BinOp::Cmpeq => 1u32,
            BinOp::Cmpltu => 1u32,
            _ => a.bits,
        };
        Constant::new(raw, bits)
    }
}

/// A value masked to a narrow width is also masked to any wider width.
pub proof fn lemma_mask_widen(x: u64, b1: u32, b2: u32)
    requires
        1 <= b1 <= b2 <= 64,
        x & mask_of(b1) == x,
    ensures
        x & mask_of(b2) == x,
{
    if b2 == 64 {
        assert(x & 0xffff_ffff_ffff_ffffu64 == x) by (bit_vector);
    } else {
        let s1 = b1 as u64;
        let s2 = b2 as u64;
        assert(x & (((1u64 << s2) as u64 - 1) as u64) == x) by (bit_vector)
            requires
                1 <= s1 <= s2 < 64,
                x & (((1u64 << s1) as u64 - 1) as u64) == x,
        ;
    }
}

/// The value whose bytes are those of the low `nbytes` bytes of `v`, in
/// reversed order.
pub open spec fn spec_swap(v: u64, nbytes: u32) -> u64
    recommends
        nbytes <= 8,
    decreases nbytes,
{
    if nbytes == 0 {
        0u64
    } else {
        ((((v & 0xffu64) as u64) << ((8 * (nbytes - 1)) as u64)) as u64 | spec_swap(
            ((v >> 8u64) as u64),
            (nbytes - 1) as u32,
        ) as u64)
    }
}

/// A byte-reversed value fits in the width it was reversed within.
pub proof fn lemma_swap_fits(v: u64, nbytes: u32)
    requires
        1 <= nbytes <= 8,
    ensures
        spec_swap(v, nbytes) & mask_of((8 * nbytes) as u32) == spec_swap(v, nbytes),
    decreases nbytes,
{
    if nbytes == 1 {
        assert(spec_swap(((v >> 8u64) as u64), 0u32) == 0u64);
        assert(((((v & 0xffu64) as u64) << 0u64) as u64 | 0u64) & (((1u64 << 8u64) as u64
            - 1) as u64) == ((((v & 0xffu64) as u64) << 0u64) as u64 | 0u64)) by (bit_vector);
    } else {
        lemma_swap_fits((v >> 8u64) as u64, (nbytes - 1) as u32);
        let rest = spec_swap((v >> 8u64) as u64, (nbytes - 1) as u32);
        let s = (8 * (nbytes - 1)) as u64;
        let r = spec_swap(v, nbytes);
        if nbytes == 8 {
            assert((((((v & 0xffu64) as u64) << s) as u64 | rest) as u64) & 0xffff_ffff_ffff_ffffu64
                == ((((v & 0xffu64) as u64) << s) as u64 | rest)) by (bit_vector);
        } else {
            assert((((((v & 0xffu64) as u64) << s) as u64 | rest) as u64) & (((1u64 << ((s + 8)
                as u64)) as u64 - 1) as u64) == ((((v & 0xffu64) as u64) << s) as u64 | rest))
                by (bit_vector)
                requires
                    8 <= s <= 48,
                    rest & (((1u64 << s) as u64 - 1) as u64) == rest,
            ;
        }
    }
}

/// Executable byte reversal of the low `nbytes` bytes.
pub fn swap_bytes(v: u64, nbytes: u32) -> (r: u64)
    requires
        nbytes <= 8,
    ensures
        r == spec_swap(v, nbytes),
    decreases nbytes,
{
    if nbytes == 0 {
        0u64
    } else {
        ((v & 0xffu64) << ((8 * (nbytes - 1)) as u64)) | swap_bytes(v >> 8u64, nbytes - 1)
    }
}

/// The unary operators of the IL: zero extension, truncation, and byte
/// reversal (used for endianness handling).
#[derive(Clone, Copy, PartialEq, Eq, Structural, Debug)]
pub enum UnOp {
    Zext(u32),
    Trunc(u32),
    SwapBytes,
}

impl UnOp {
    /// When a unary operator is defined on a constant of a given width.
    pub open spec fn ok_for(self, bits: u32) -> bool {
        match self {
            UnOp::Zext(b) => bits <= b <= 64,
            UnOp::Trunc(b) => 1 <= b <= bits,
            UnOp::SwapBytes => bits % 8 == 0,
        }
    }
}

/// The constant a unary operator evaluates to.
pub open spec fn spec_unop(op: UnOp, c: Constant) -> Constant
    recommends
        c.wf(),
        op.ok_for(c.bits),
{
    match op {
        UnOp::Zext(b) => Constant { value: c.value, bits: b },
        UnOp::Trunc(b) => Constant { value: c.value & mask_of(b), bits: b },
        UnOp::SwapBytes => Constant { value: spec_swap(c.value, c.bits / 8), bits: c.bits },
    }
}

impl Constant {
    /// Apply a unary operator to a constant.
    pub fn unop(op: UnOp, c: &Constant) -> (r: Constant)
        requires
            c.wf(),
            op.ok_for(c.bits),
        ensures
            r == spec_unop(op, *c),
            r.wf(),
    {
        match op {
            UnOp::Zext(b) => {
                proof {
                    lemma_mask_widen(c.value, c.bits, b);
                }
                Constant { value: c.value, bits: b }
            },
            UnOp::Trunc(b) => {
                let m = mask_bits(b);
                proof {
                    lemma_mask_idem(c.value, m);
                }
                Constant { value: c.value & m, bits: b }
            },
            UnOp::SwapBytes => {
                proof {
                    lemma_swap_fits(c.value, c.bits / 8);
                    assert(8 * (c.bits / 8) == c.bits);
                }
                Constant { value: swap_bytes(c.value, c.bits / 8), bits: c.bits }
            },
        }
    }
}

/// Strict total order on constants, by value first and then by width.
pub open spec fn const_lt(a: Constant, b: Constant) -> bool {
    a.value < b.value || (a.value == b.value && a.bits < b.bits)
}

/// Executable counterpart of `const_lt`.
pub fn const_less(a: &Constant, b: &Constant) -> (r: bool)
    ensures
        r == const_lt(*a, *b),
{
    a.value < b.value || (a.value == b.value && a.bits < b.bits)
}

/// An IL variable or temporary: an identifier together with a width.
#[derive(Clone, Copy, PartialEq, Eq, Structural, Debug)]
pub struct Scalar {
    pub name: u64,
    pub bits: u32,
}

impl Scalar {
    pub open spec fn wf(self) -> bool {
        1 <= self.bits <= 64
    }

    pub fn new(name: u64, bits: u32) -> (r: Scalar)
        requires
            1 <= bits <= 64,
        ensures
            r == (Scalar { name, bits }),
    {
        Scalar { name, bits }
    }
}

/// Strict total order on scalars, by name and then by width.
pub open spec fn scalar_lt(a: Scalar, b: Scalar) -> bool {
    a.name < b.name || (a.name == b.name && a.bits < b.bits)
}

/// Executable counterpart of `scalar_lt`.
pub fn scalar_less(a: &Scalar, b: &Scalar) -> (r: bool)
    ensures
        r == scalar_lt(*a, *b),
{
    a.name < b.name || (a.name == b.name && a.bits < b.bits)
}

/// An IL expression over scalars and constants.
pub enum Expression {
    Scalar(Scalar),
    Constant(Constant),
    Binop(BinOp, Box<Expression>, Box<Expression>),
    Unop(UnOp, Box<Expression>),
}

impl Clone for Expression {
    fn clone(&self) -> (r: Self)
        ensures
            r == *self,
        decreases self,
    {
        match self {
            Expression::Scalar(s) => Expression::Scalar(*s),
            Expression::Constant(c) => Expression::Constant(*c),
            Expression::Binop(op, l, r) => Expression::Binop(
                *op,
                Box::new((**l).clone()),
                Box::new((**r).clone()),
            ),
            Expression::Unop(op, e) => Expression::Unop(*op, Box::new((**e).clone())),
        }
    }
}

impl Expression {
    /// The width of the value the expression denotes.
    pub open spec fn spec_bits(self) -> u32
        decreases self,
    {
        match self {
            Expression::Scalar(s) => s.bits,
            Expression::Constant(c) => c.bits,
            Expression::Binop(op, l, _) => if op.is_comparison() {
                1u32
            } else {
                l.spec_bits()
            },
            Expression::Unop(op, e) => match op {
                UnOp::Zext(b) => b,
                UnOp::Trunc(b) => b,
                UnOp::SwapBytes => e.spec_bits(),
            },
        }
    }

    /// Well-formed: widths are consistent and every leaf is well-formed.
    pub open spec fn wf(self) -> bool
        decreases self,
    {
        match self {
            Expression::Scalar(s) => s.wf(),
            Expression::Constant(c) => c.wf(),
            Expression::Binop(_, l, r) => l.wf() && r.wf(),
            Expression::Unop(op, e) => e.wf() && op.ok_for(e.spec_bits()),
        }
    }

    /// Executable width computation.
    pub fn bits(&self) -> (r: u32)
        ensures
            r == self.spec_bits(),
        decreases self,
    {
        match self {
            Expression::Scalar(s) => s.bits,
            Expression::Constant(c) => c.bits,
            Expression::Binop(op, l, _) => match op {
                BinOp::Cmpeq => 1u32,
                BinOp::Cmpltu => 1u32,
                _ => l.bits(),
            },
            Expression::Unop(op, e) => match op {
                UnOp::Zext(b) => *b,
                UnOp::Trunc(b) => *b,
                UnOp::SwapBytes => e.bits(),
            },
        }
    }

    /// A constant expression of the given value and width.
    pub fn constant(value: u64, bits: u32) -> (r: Expression)
        requires
            1 <= bits <= 64,
        ensures
            r == Expression::Constant(Constant { value: value & mask_of(bits), bits }),
            r.wf(),
            r.spec_bits() == bits,
    {
        Expression::Constant(Constant::new(value, bits))
    }

    /// A scalar expression.
    pub fn scalar(name: u64, bits: u32) -> (r: Expression)
        requires
            1 <= bits <= 64,
        ensures
            r == Expression::Scalar(Scalar { name, bits }),
            r.wf(),
            r.spec_bits() == bits,
    {
        Expression::Scalar(Scalar::new(name, bits))
    }
}

/// One IL operation: the payload of an instruction.
#[derive(Clone)]
pub enum Operation {
    Assign { dst: Scalar, src: Expression },
    Store { address: Expression, src: Expression },
    Load { dst: Scalar, address: Expression },
    Brc { dst: Expression, condition: Expression },
    Phi { dst: Scalar, src: Vec<Scalar> },
}

impl Operation {
    pub open spec fn wf(self) -> bool {
        match self {
            Operation::Assign { dst, src } => dst.wf() && src.wf(),
            Operation::Store { address, src } => address.wf() && src.wf(),
            Operation::Load { dst, address } => dst.wf() && address.wf(),
            Operation::Brc { dst, condition } => dst.wf() && condition.wf(),
            Operation::Phi { dst, src } => dst.wf() && (forall|i: int|
                0 <= i < src@.len() ==> (#[trigger] src@[i]).wf()),
        }
    }
}

/// An instruction: an operation at an optional machine address.
#[derive(Clone)]
pub struct Instruction {
    pub address: Option<u64>,
    pub operation: Operation,
}

impl Instruction {
    pub open spec fn wf(self) -> bool {
        self.operation.wf()
    }
}

/// A basic block: an ordered sequence of instructions.
#[derive(Clone)]
pub struct Block {
    pub instructions: Vec<Instruction>,
}

impl Block {
    pub open spec fn wf(self) -> bool {
        forall|i: int| 0 <= i < self.instructions@.len() ==> (#[trigger] self.instructions@[i]).wf()
    }

    /// The instruction at the given index, if any.
    pub fn instruction(&self, index: usize) -> (r: Option<&Instruction>)
        ensures
            match r {
                Some(ins) => index < self.instructions@.len() && *ins == self.instructions@[
                    index as int],
                None => index >= self.instructions@.len(),
            },
    {
        if index < self.instructions.len() {
            Some(&self.instructions[index])
        } else {
            None
        }
    }
}

/// A directed edge between two blocks, optionally guarded by a condition.
#[derive(Clone)]
pub struct Edge {
    pub head: usize,
    pub tail: usize,
    pub condition: Option<Expression>,
}

impl Edge {
    pub open spec fn wf(self, num_blocks: nat) -> bool {
        &&& self.head < num_blocks
        &&& self.tail < num_blocks
        &&& match self.condition {
            Some(c) => c.wf(),
            None => true,
        }
    }
}

/// A control-flow graph: blocks addressed by their index, and edges.
#[derive(Clone)]
pub struct ControlFlowGraph {
    pub blocks: Vec<Block>,
    pub edges: Vec<Edge>,
}

impl ControlFlowGraph {
    /// Well-formed: edges stay inside the graph, no edge is repeated, and
    /// every block is well-formed.
    pub open spec fn wf(self) -> bool {
        &&& forall|i: int|
            0 <= i < self.blocks@.len() ==> (#[trigger] self.blocks@[i]).wf()
        &&& forall|i: int|
            0 <= i < self.edges@.len() ==> (#[trigger] self.edges@[i]).wf(self.blocks@.len())
        &&& forall|i: int, j: int|
            0 <= i < j < self.edges@.len() ==> !((#[trigger] self.edges@[i]).head
                == (#[trigger] self.edges@[j]).head && self.edges@[i].tail == self.edges@[j].tail)
    }

    /// The block at the given index, if any.
    pub fn block(&self, index: usize) -> (r: Option<&Block>)
        ensures
            match r {
                Some(b) => index < self.blocks@.len() && *b == self.blocks@[index as int],
                None => index >= self.blocks@.len(),
            },
    {
        if index < self.blocks.len() {
            Some(&self.blocks[index])
        } else {
            None
        }
    }
}

/// A function: a control-flow graph at a machine address.
#[derive(Clone)]
pub struct Function {
    pub address: u64,
    pub cfg: ControlFlowGraph,
}

impl Function {
    pub open spec fn wf(self) -> bool {
        self.cfg.wf()
    }
}

/// A program: a collection of functions.
#[derive(Clone)]
pub struct Program {
    pub functions: Vec<Function>,
}

impl Program {
    pub open spec fn wf(self) -> bool {
        forall|i: int| 0 <= i < self.functions@.len() ==> (#[trigger] self.functions@[i]).wf()
    }

    /// The function at the given index, if any.
    pub fn function(&self, index: usize) -> (r: Option<&Function>)
        ensures
            match r {
                Some(f) => index < self.functions@.len() && *f == self.functions@[index as int],
                None => index >= self.functions@.len(),
            },
    {
        if index < self.functions.len() {
            Some(&self.functions[index])
        } else {
            None
        }
    }
}

} // verus!
