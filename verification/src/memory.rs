//! Byte-addressable symbolic memory: a mapping from 64-bit addresses to
//! 8-bit symbolic expressions. Wider stores decompose into one byte per
//! address in the configured endianness; wider loads re-compose bytes in
//! the same order.

use vstd::prelude::*;
use crate::il::{BinOp, Constant, Expression, UnOp, mask_of};
use crate::value_set::Endian;

verus! {

/// The mapping a cell sequence denotes.
pub open spec fn cells_map(s: Seq<(u64, Expression)>) -> Map<u64, Expression>
    decreases s.len(),
{
    if s.len() == 0 {
        Map::empty()
    } else {
        cells_map(s.drop_last()).insert(s.last().0, s.last().1)
    }
}

/// A key is in the denoted mapping exactly when some cell carries it.
pub proof fn lemma_cells_map_dom(s: Seq<(u64, Expression)>)
    ensures
        forall|k: u64|
            #[trigger] cells_map(s).contains_key(k) <==> exists|i: int|
                0 <= i < s.len() && (#[trigger] s[i]).0 == k,
    decreases s.len(),
{
    if s.len() > 0 {
        lemma_cells_map_dom(s.drop_last());
        assert forall|k: u64| #[trigger] cells_map(s).contains_key(k) implies exists|i: int|
            0 <= i < s.len() && (#[trigger] s[i]).0 == k by {
            if k == s.last().0 {
                assert(s[s.len() - 1].0 == k);
            } else {
                assert(cells_map(s.drop_last()).contains_key(k));
                let i = choose|i: int| 0 <= i < s.len() - 1 && (#[trigger] s.drop_last()[i]).0 == k;
                assert(s[i].0 == k);
            }
        }
        assert forall|k: u64|
            (exists|i: int| 0 <= i < s.len() && (#[trigger] s[i]).0 == k) implies #[trigger]
            cells_map(s).contains_key(k) by {
            let i = choose|i: int| 0 <= i < s.len() && (#[trigger] s[i]).0 == k;
            if i < s.len() - 1 {
                assert(s.drop_last()[i].0 == k);
                assert(cells_map(s.drop_last()).contains_key(k));
            }
        }
    }
}

/// With strictly sorted addresses, each cell's expression is the
/// mapping's value.
pub proof fn lemma_cells_map_index(s: Seq<(u64, Expression)>)
    requires
        forall|i: int, j: int| 0 <= i < j < s.len() ==> (#[trigger] s[i]).0 < (#[trigger] s[j]).0,
    ensures
        forall|i: int|
            0 <= i < s.len() ==> cells_map(s).contains_key((#[trigger] s[i]).0) && cells_map(s)[
                s[i].0] == s[i].1,
    decreases s.len(),
{
    lemma_cells_map_dom(s);
    if s.len() > 0 {
        lemma_cells_map_index(s.drop_last());
        assert forall|i: int| 0 <= i < s.len() implies cells_map(s).contains_key((
            #[trigger] s[i]).0) && cells_map(s)[s[i].0] == s[i].1 by {
            if i < s.len() - 1 {
                assert(s.drop_last()[i] == s[i]);
                assert(s[i].0 != s.last().0);
            }
        }
    }
}

/// The byte expression a store writes at offset `k`: for a constant,
/// the extracted concrete byte; otherwise a shift-and-truncate of the
/// stored expression.
pub open spec fn spec_extract_byte(e: Expression, k: u32) -> Expression {
    match e {
        Expression::Constant(c) => Expression::Constant(
            Constant { value: (c.value >> ((8 * k) as u64)) & 0xffu64, bits: 8 },
        ),
        _ => Expression::Unop(
            UnOp::Trunc(8),
            Box::new(
                Expression::Binop(
                    BinOp::Shr,
                    Box::new(e),
                    Box::new(
                        Expression::Constant(Constant { value: (8 * k) as u64, bits: 64 }),
                    ),
                ),
            ),
        ),
    }
}

/// Which byte of the stored expression lands at offset `k` of an
/// `n`-byte store: offset 0 takes the least significant byte on a
/// little-endian machine and the most significant on a big-endian one.
pub open spec fn byte_source(little: bool, n: u32, k: u32) -> u32
    recommends
        k < n,
{
    if little {
        k
    } else {
        (n - 1 - k) as u32
    }
}

/// Byte-addressable symbolic memory with a fixed word size and byte
/// order. Fresh symbolic bytes built on first read draw names from its
/// own counter.
pub struct SymbolicMemory {
    pub cells: Vec<(u64, Expression)>,
    pub word_size: usize,
    pub endian: Endian,
    pub next_fresh: u64,
}

impl SymbolicMemory {
    pub open spec fn wf(self) -> bool {
        &&& forall|i: int, j: int|
            0 <= i < j < self.cells@.len() ==> (#[trigger] self.cells@[i]).0 < (
            #[trigger] self.cells@[j]).0
        &&& forall|i: int|
            0 <= i < self.cells@.len() ==> (#[trigger] self.cells@[i]).1.wf() && self.cells@[
                i].1.spec_bits() == 8
    }

    pub open spec fn view_map(self) -> Map<u64, Expression> {
        cells_map(self.cells@)
    }

    pub fn new(word_size: usize, endian: Endian) -> (r: SymbolicMemory)
        ensures
            r.wf(),
            r.word_size == word_size,
            r.endian == endian,
            r.view_map() == Map::<u64, Expression>::empty(),
    {
        SymbolicMemory { cells: Vec::new(), word_size, endian, next_fresh: 0 }
    }

    /// The byte expression stored at an address, if any.
    pub fn load_byte(&self, address: u64) -> (r: Option<&Expression>)
        requires
            self.wf(),
        ensures
            match r {
                Some(e) => self.view_map().contains_key(address) && *e == self.view_map()[address]
                    && e.wf() && e.spec_bits() == 8,
                None => !self.view_map().contains_key(address),
            },
    {
        let mut i: usize = 0;
        proof {
            lemma_cells_map_dom(self.cells@);
            lemma_cells_map_index(self.cells@);
        }
        while i < self.cells.len()
            invariant
                0 <= i <= self.cells@.len(),
                self.wf(),
                forall|k: int| 0 <= k < i ==> (#[trigger] self.cells@[k]).0 != address,
                forall|k: int|
                    0 <= k < self.cells@.len() ==> cells_map(self.cells@).contains_key((
                    #[trigger] self.cells@[k]).0) && cells_map(self.cells@)[self.cells@[k].0]
                        == self.cells@[k].1,
                forall|k: u64|
                    #[trigger] cells_map(self.cells@).contains_key(k) <==> exists|j: int|
                        0 <= j < self.cells@.len() && (#[trigger] self.cells@[j]).0 == k,
            decreases self.cells@.len() - i,
        {
            if self.cells[i].0 == address {
                proof {
                    assert(self.cells@[i as int].0 == address);
                }
                return Some(&self.cells[i].1);
            }
            i = i + 1;
        }
        None
    }

    /// Write one byte expression at an address.
    #[verifier::rlimit(100)]
    #[verifier::spinoff_prover]
    pub fn store_byte(&mut self, address: u64, e: Expression)
        requires
            old(self).wf(),
            e.wf(),
            e.spec_bits() == 8,
        ensures
            final(self).wf(),
            final(self).view_map() == old(self).view_map().insert(address, e),
            final(self).endian == old(self).endian,
            final(self).word_size == old(self).word_size,
            final(self).next_fresh == old(self).next_fresh,
    {
        let ghost orig = self.cells@;
        let mut i: usize = 0;
        while i < self.cells.len() && self.cells[i].0 < address
            invariant
                0 <= i <= self.cells@.len(),
                self == old(self),
                forall|k: int| 0 <= k < i ==> (#[trigger] self.cells@[k]).0 < address,
            decreases self.cells@.len() - i,
        {
            i = i + 1;
        }
        proof {
            lemma_cells_map_dom(orig);
            lemma_cells_map_index(orig);
        }
        if i < self.cells.len() && self.cells[i].0 == address {
            proof {
                assert(orig[i as int].0 == address);
            }
            self.cells[i] = (address, e);
            proof {
                lemma_cells_map_dom(self.cells@);
                lemma_cells_map_index(self.cells@);
                assert forall|k: u64| true implies #[trigger] cells_map(self.cells@).contains_key(
                    k,
                ) == old(self).view_map().insert(address, e).contains_key(k) by {
                    if cells_map(self.cells@).contains_key(k) {
                        let j = choose|j: int|
                            0 <= j < self.cells@.len() && (#[trigger] self.cells@[j]).0 == k;
                        if j != i {
                            assert(orig[j].0 == k);
                        }
                    }
                    if old(self).view_map().insert(address, e).contains_key(k) {
                        if k != address {
                            let j = choose|j: int| 0 <= j < orig.len() && (#[trigger] orig[j]).0 == k;
                            assert(self.cells@[j].0 == k);
                        } else {
                            assert(self.cells@[i as int].0 == k);
                        }
                    }
                }
                assert forall|k: u64| #[trigger] cells_map(self.cells@).contains_key(k) implies
                    cells_map(self.cells@)[k] == old(self).view_map().insert(address, e)[k] by {
                    let j = choose|j: int|
                        0 <= j < self.cells@.len() && (#[trigger] self.cells@[j]).0 == k;
                    if j == i {
                    } else {
                        assert(orig[j].0 == k && orig[j].1 == self.cells@[j].1);
                    }
                }
                assert(cells_map(self.cells@) =~= old(self).view_map().insert(address, e));
            }
        } else {
            proof {
                assert(forall|k: int| i <= k < orig.len() ==> (#[trigger] orig[k]).0 >= address);
                assert(forall|k: int| i <= k < orig.len() ==> (#[trigger] orig[k]).0 != address);
                assert(!cells_map(orig).contains_key(address));
            }
            self.cells.insert(i, (address, e));
            proof {
                assert(self.cells@ == orig.insert(i as int, (address, e)));
                lemma_cells_map_dom(self.cells@);
                lemma_cells_map_index(self.cells@);
                assert forall|k: u64| true implies #[trigger] cells_map(self.cells@).contains_key(
                    k,
                ) == old(self).view_map().insert(address, e).contains_key(k) by {
                    if cells_map(self.cells@).contains_key(k) {
                        let j = choose|j: int|
                            0 <= j < self.cells@.len() && (#[trigger] self.cells@[j]).0 == k;
                        if j < i {
                            assert(orig[j].0 == k);
                        } else if j > i {
                            assert(orig[j - 1].0 == k);
                        }
                    }
                    if old(self).view_map().insert(address, e).contains_key(k) {
                        if k == address {
                            assert(self.cells@[i as int].0 == k);
                        } else {
                            let j = choose|j: int| 0 <= j < orig.len() && (#[trigger] orig[j]).0 == k;
                            if j < i {
                                assert(self.cells@[j].0 == k);
                            } else {
                                assert(self.cells@[j + 1].0 == k);
                            }
                        }
                    }
                }
                assert forall|k: u64| #[trigger] cells_map(self.cells@).contains_key(k) implies
                    cells_map(self.cells@)[k] == old(self).view_map().insert(address, e)[k] by {
                    let j = choose|j: int|
                        0 <= j < self.cells@.len() && (#[trigger] self.cells@[j]).0 == k;
                    if j < i {
                        assert(orig[j].0 == k && orig[j].1 == self.cells@[j].1);
                    } else if j > i {
                        assert(orig[j - 1].0 == k && orig[j - 1].1 == self.cells@[j].1);
                    }
                }
                assert(cells_map(self.cells@) =~= old(self).view_map().insert(address, e));
            }
        }
    }
}

/// Extract the byte expression at offset `k` of an expression.
pub fn extract_byte(e: &Expression, k: u32) -> (r: Expression)
    requires
        e.wf(),
        k <= 7,
        e.spec_bits() >= 8,
    ensures
        r == spec_extract_byte(*e, k),
        r.wf(),
        r.spec_bits() == 8,
{
    match e {
        Expression::Constant(c) => {
            let v = (c.value >> ((8 * k) as u64)) & 0xffu64;
            proof {
                assert((((1u64 << 8u64) as u64 - 1) as u64) == 0xffu64) by (bit_vector);
                assert(mask_of(8) == 0xffu64);
                let ghost cv = c.value;
                let ghost sh = (8 * k) as u64;
                assert(((cv >> sh) & 0xffu64) & 0xffu64 == (cv >> sh) & 0xffu64) by (bit_vector);
            }
            Expression::Constant(Constant { value: v, bits: 8 })
        },
        _ => {
            let shift = (8 * k) as u64;
            proof {
                assert(shift & 0xffff_ffff_ffff_ffffu64 == shift) by (bit_vector);
                assert(mask_of(64) == 0xffff_ffff_ffff_ffffu64);
            }
            let amount = Expression::Constant(Constant { value: shift, bits: 64 });
            proof {
                assert(amount.wf());
            }
            let shifted = Expression::Binop(BinOp::Shr, Box::new(e.clone()), Box::new(amount));
            proof {
                assert(shifted.wf());
                assert(shifted.spec_bits() == e.spec_bits());
            }
            let r = Expression::Unop(UnOp::Trunc(8), Box::new(shifted));
            proof {
                assert(r.wf());
            }
            r
        },
    }
}

impl SymbolicMemory {
    /// Store an expression of any byte-multiple width: one byte
    /// expression per address offset, ordered by the configured
    /// endianness (offset 0 holds the least significant byte on a
    /// little-endian machine, the most significant on a big-endian one).
    pub fn store(&mut self, address: u64, e: Expression)
        requires
            old(self).wf(),
            e.wf(),
            e.spec_bits() % 8 == 0,
            8 <= e.spec_bits() <= 64,
            address as int + (e.spec_bits() / 8) as int - 1 <= u64::MAX as int,
        ensures
            final(self).wf(),
            final(self).endian == old(self).endian,
            final(self).word_size == old(self).word_size,
            final(self).next_fresh == old(self).next_fresh,
            forall|k: int|
                0 <= k < (e.spec_bits() / 8) as int ==> final(self).view_map().contains_key(
                    #[trigger] ((address + k) as u64),
                ) && final(self).view_map()[(address + k) as u64] == spec_extract_byte(
                    e,
                    byte_source(
                        old(self).endian == Endian::Little,
                        (e.spec_bits() / 8) as u32,
                        k as u32,
                    ),
                ),
            forall|a: u64|
                #![trigger final(self).view_map().contains_key(a)]
                #![trigger old(self).view_map().contains_key(a)]
                (a < address || a as int >= address as int + (e.spec_bits() / 8) as int) ==> (
                final(self).view_map().contains_key(a) == old(self).view_map().contains_key(a) && (
                old(self).view_map().contains_key(a) ==> final(self).view_map()[a] == old(
                    self,
                ).view_map()[a])),
    {
        let n: u32 = e.bits() / 8;
        let little = self.endian == Endian::Little;
        let ghost orig = old(self).view_map();
        let mut k: u32 = 0;
        while k < n
            invariant
                0 <= k <= n,
                1 <= n <= 8,
                n == (e.spec_bits() / 8) as u32,
                e.wf(),
                e.spec_bits() % 8 == 0,
                8 <= e.spec_bits() <= 64,
                address as int + n as int - 1 <= u64::MAX as int,
                self.wf(),
                self.endian == old(self).endian,
                self.word_size == old(self).word_size,
                self.next_fresh == old(self).next_fresh,
                little == (old(self).endian == Endian::Little),
                forall|j: int|
                    0 <= j < k as int ==> self.view_map().contains_key(
                        #[trigger] ((address + j) as u64),
                    ) && self.view_map()[(address + j) as u64] == spec_extract_byte(
                        e,
                        byte_source(little, n, j as u32),
                    ),
                forall|a: u64|
                    #![trigger self.view_map().contains_key(a)]
                    #![trigger orig.contains_key(a)]
                    (a < address || a as int >= address as int + k as int) ==> (
                    self.view_map().contains_key(a) == orig.contains_key(a) && (orig.contains_key(a)
                        ==> self.view_map()[a] == orig[a])),
            decreases n - k,
        {
            let src: u32 = if little {
                k
            } else {
                n - 1 - k
            };
            let byte = extract_byte(&e, src);
            let ghost before = self.view_map();
            self.store_byte(address + (k as u64), byte);
            proof {
                assert(self.view_map() == before.insert((address + k) as u64, byte));
                assert forall|j: int| 0 <= j < k as int + 1 implies self.view_map().contains_key(
                    #[trigger] ((address + j) as u64),
                ) && self.view_map()[(address + j) as u64] == spec_extract_byte(
                    e,
                    byte_source(little, n, j as u32),
                ) by {
                    if j < k as int {
                        assert((address + j) as u64 != (address + k) as u64);
                        assert(before.contains_key((address + j) as u64));
                    }
                }
                assert forall|a: u64|
                    (a < address || a as int >= address as int + k as int + 1) implies (
                    self.view_map().contains_key(a) == orig.contains_key(a) && (orig.contains_key(a)
                        ==> self.view_map()[a] == orig[a])) by {
                    assert(a != (address + k) as u64);
                    assert(self.view_map().contains_key(a) == before.contains_key(a));
                    assert(before.contains_key(a) == orig.contains_key(a) && (orig.contains_key(a)
                        ==> before[a] == orig[a]));
                    if orig.contains_key(a) {
                        assert(self.view_map()[a] == before[a]);
                    }
                }
            }
            k = k + 1;
        }
    }

    /// The value the `j` lowest offsets compose to, each byte placed at
    /// its position under the configured byte order.
    pub open spec fn compose_bytes(
        m: Map<u64, Expression>,
        address: u64,
        little: bool,
        n: u32,
        j: u32,
    ) -> u64
        decreases j,
    {
        if j == 0 {
            0u64
        } else {
            (Self::compose_bytes(m, address, little, n, (j - 1) as u32) | ((match m[(address + (j
                - 1)) as u64] {
                Expression::Constant(c) => c.value,
                _ => 0u64,
            }) << ((8 * byte_source(little, n, (j - 1) as u32)) as u64)) as u64)
        }
    }

    /// The constant an `n`-byte load re-composes, when every byte in the
    /// range is present and concrete.
    pub open spec fn spec_load_constant(
        m: Map<u64, Expression>,
        address: u64,
        little: bool,
        n: u32,
    ) -> Option<Constant> {
        if 1 <= n <= 8 && (forall|k: int|
            0 <= k < n as int ==> m.contains_key((address + k) as u64) && (#[trigger] m[(address
                + k) as u64]) is Constant) {
            Some(Constant { value: Self::compose_bytes(m, address, little, n, n), bits: (8 * n) as u32 })
        } else {
            None
        }
    }

    /// Load `bits / 8` bytes and re-compose them into one constant.
    /// `None` exactly when some byte in the range is absent or symbolic.
    pub fn load_constant(&self, address: u64, bits: u32) -> (r: Option<Constant>)
        requires
            self.wf(),
            bits % 8 == 0,
            8 <= bits <= 64,
            address as int + (bits / 8) as int - 1 <= u64::MAX as int,
        ensures
            r == Self::spec_load_constant(
                self.view_map(),
                address,
                self.endian == Endian::Little,
                bits / 8,
            ),
    {
        let n: u32 = bits / 8;
        let little = self.endian == Endian::Little;
        let ghost m = self.view_map();
        let mut acc: u64 = 0;
        let mut j: u32 = 0;
        while j < n
            invariant
                0 <= j <= n,
                1 <= n <= 8,
                n == bits / 8,
                self.wf(),
                little == (self.endian == Endian::Little),
                m == self.view_map(),
                address as int + n as int - 1 <= u64::MAX as int,
                acc == Self::compose_bytes(m, address, little, n, j),
                forall|k: int|
                    0 <= k < j as int ==> m.contains_key((address + k) as u64) && (#[trigger] m[(
                    address + k) as u64]) is Constant,
            decreases n - j,
        {
            match self.load_byte(address + (j as u64)) {
                Some(e) => {
                    match e {
                        Expression::Constant(c) => {
                            let pos: u32 = if little {
                                j
                            } else {
                                n - 1 - j
                            };
                            acc = acc | (c.value << ((8 * pos) as u64));
                        },
                        _ => {
                            proof {
                                assert(m[(address + j) as u64] == *e);
                                assert(!(m[(address + j) as u64] is Constant));
                                assert(!(forall|k: int|
                                    0 <= k < n as int ==> m.contains_key((address + k) as u64) && (
                                    #[trigger] m[(address + k) as u64]) is Constant)) by {
                                    if forall|k: int|
                                        0 <= k < n as int ==> m.contains_key((address + k) as u64)
                                            && (#[trigger] m[(address + k) as u64]) is Constant {
                                        assert(m[(address + j) as u64] is Constant);
                                    }
                                }
                                assert(Self::spec_load_constant(m, address, little, n) is None);
                            }
                            return None;
                        },
                    }
                },
                None => {
                    proof {
                        assert(!m.contains_key((address + j) as u64));
                        assert(!(forall|k: int|
                            0 <= k < n as int ==> m.contains_key((address + k) as u64) && (
                            #[trigger] m[(address + k) as u64]) is Constant)) by {
                            if forall|k: int|
                                0 <= k < n as int ==> m.contains_key((address + k) as u64) && (
                                #[trigger] m[(address + k) as u64]) is Constant {
                                assert(m[(address + j) as u64] is Constant);
                                assert(m.contains_key((address + j) as u64));
                            }
                        }
                        assert(Self::spec_load_constant(m, address, little, n) is None);
                    }
                    return None;
                },
            }
            j = j + 1;
        }
        proof {
            assert(Self::spec_load_constant(m, address, little, n) == Some(
                Constant { value: acc, bits: (8 * n) as u32 },
            ));
        }
        Some(Constant { value: acc, bits: 8 * n })
    }

    /// The expression an `n`-byte load composes from the bytes the
    /// memory holds: each byte zero-extended to the full width and
    /// shifted to its position, folded left over an all-zero constant.
    pub open spec fn spec_compose_expr(
        m: Map<u64, Expression>,
        address: u64,
        little: bool,
        n: u32,
        j: u32,
    ) -> Expression
        decreases j,
    {
        if j == 0 {
            Expression::Constant(Constant { value: 0, bits: (8 * n) as u32 })
        } else {
            Expression::Binop(
                BinOp::Or,
                Box::new(Self::spec_compose_expr(m, address, little, n, (j - 1) as u32)),
                Box::new(
                    Expression::Binop(
                        BinOp::Shl,
                        Box::new(
                            Expression::Unop(
                                UnOp::Zext((8 * n) as u32),
                                Box::new(m[(address + (j - 1)) as u64]),
                            ),
                        ),
                        Box::new(
                            Expression::Constant(
                                Constant {
                                    value: (8 * byte_source(little, n, (j - 1) as u32)) as u64,
                                    bits: 64,
                                },
                            ),
                        ),
                    ),
                ),
            )
        }
    }

    /// Load `bits / 8` bytes as an expression, constructing (and
    /// storing) a fresh symbolic byte for each address never written —
    /// unconstrained initial memory, not a failure. Where every byte is
    /// present and concrete, the result is exactly the re-composed
    /// constant and the memory is untouched.
    pub fn load_or_build(&mut self, address: u64, bits: u32) -> (r: Expression)
        requires
            old(self).wf(),
            bits % 8 == 0,
            8 <= bits <= 64,
            address as int + (bits / 8) as int - 1 <= u64::MAX as int,
        ensures
            final(self).wf(),
            final(self).endian == old(self).endian,
            final(self).word_size == old(self).word_size,
            r.wf(),
            r.spec_bits() == bits,
            forall|a: u64|
                #![trigger old(self).view_map().contains_key(a)]
                #![trigger final(self).view_map().contains_key(a)]
                old(self).view_map().contains_key(a) ==> final(self).view_map().contains_key(a)
                    && final(self).view_map()[a] == old(self).view_map()[a],
            Self::spec_load_constant(
                old(self).view_map(),
                address,
                old(self).endian == Endian::Little,
                bits / 8,
            ) matches Some(c) ==> final(self).view_map() == old(self).view_map() && r
                == Expression::Constant(c),
            Self::spec_load_constant(
                old(self).view_map(),
                address,
                old(self).endian == Endian::Little,
                bits / 8,
            ) is None ==> r == Self::spec_compose_expr(
                final(self).view_map(),
                address,
                old(self).endian == Endian::Little,
                bits / 8,
                bits / 8,
            ),
    {
        let n: u32 = bits / 8;
        let ghost little = self.endian == Endian::Little;
        let ghost orig = old(self).view_map();
        // First make every byte in the range present.
        let mut j: u32 = 0;
        while j < n
            invariant
                0 <= j <= n,
                1 <= n <= 8,
                self.wf(),
                self.endian == old(self).endian,
                self.word_size == old(self).word_size,
                address as int + n as int - 1 <= u64::MAX as int,
                forall|a: u64|
                    #![trigger orig.contains_key(a)]
                    #![trigger self.view_map().contains_key(a)]
                    orig.contains_key(a) ==> self.view_map().contains_key(a) && self.view_map()[a]
                        == orig[a],
                forall|k: int|
                    0 <= k < j as int ==> self.view_map().contains_key(
                        #[trigger] ((address + k) as u64),
                    ),
                (forall|k: int|
                    0 <= k < n as int ==> orig.contains_key(#[trigger] ((address + k) as u64)))
                    ==> self.view_map() == orig,
                forall|kk: int|
                    0 <= kk < n as int && !orig.contains_key(#[trigger] ((address + kk) as u64))
                        && self.view_map().contains_key((address + kk) as u64) ==> !(
                    self.view_map()[(address + kk) as u64] is Constant),
            decreases n - j,
        {
            let present = match self.load_byte(address + (j as u64)) {
                Some(_) => true,
                None => false,
            };
            if !present {
                proof {
                    assert(!self.view_map().contains_key((address + j) as u64));
                    assert(!orig.contains_key((address + j) as u64));
                }
                let ghost before = self.view_map();
                let name = self.next_fresh;
                self.next_fresh = name.wrapping_add(1);
                let fresh = Expression::Scalar(crate::il::Scalar { name, bits: 8 });
                self.store_byte(address + (j as u64), fresh);
                proof {
                    assert(self.view_map() == before.insert((address + j) as u64, fresh));
                    assert forall|a: u64| #[trigger] orig.contains_key(a) implies
                        self.view_map().contains_key(a) && self.view_map()[a] == orig[a] by {
                        assert(a != (address + j) as u64);
                        assert(before.contains_key(a) && before[a] == orig[a]);
                    }
                    assert forall|kk: int|
                        0 <= kk < n as int && !orig.contains_key(
                            #[trigger] ((address + kk) as u64),
                        ) && self.view_map().contains_key((address + kk) as u64) implies !(
                    self.view_map()[(address + kk) as u64] is Constant) by {
                        if (address + kk) as u64 == (address + j) as u64 {
                            assert(self.view_map()[(address + kk) as u64] == fresh);
                        } else {
                            assert(self.view_map()[(address + kk) as u64] == before[(address
                                + kk) as u64]);
                        }
                    }
                }
            }
            j = j + 1;
        }
        match self.load_constant(address, bits) {
            Some(c) => {
                proof {
                    if Self::spec_load_constant(orig, address, little, n) is None {
                        let m = self.view_map();
                        assert forall|k: int| 0 <= k < n as int implies orig.contains_key(
                            #[trigger] ((address + k) as u64),
                        ) by {
                            assert(m[(address + k) as u64] is Constant);
                            assert(m.contains_key((address + k) as u64));
                        }
                        assert(self.view_map() == orig);
                        assert(Self::spec_load_constant(orig, address, little, n) is Some);
                        assert(false);
                    }
                    if Self::spec_load_constant(orig, address, little, n) is Some {
                        assert forall|k: int| 0 <= k < n as int implies orig.contains_key(
                            #[trigger] ((address + k) as u64),
                        ) by {
                            assert(orig[(address + k) as u64] is Constant);
                        }
                        assert(self.view_map() == orig);
                    }
                    let m = self.view_map();
                    let lit = self.endian == Endian::Little;
                    lemma_view_map_wf(*self);
                    assert forall|k: int| 0 <= k < n as int implies m.contains_key(
                        #[trigger] ((address + k) as u64),
                    ) && m[(address + k) as u64] is Constant && m[(address + k)
                        as u64]->Constant_0.wf() && m[(address + k) as u64]->Constant_0.bits
                        == 8 by {
                        assert(m.contains_key((address + k) as u64));
                        assert(m[(address + k) as u64] is Constant);
                        assert(m[(address + k) as u64].wf());
                    }
                    lemma_compose_fits(m, address, lit, n, n);
                    assert(c.wf());
                }
                Expression::Constant(c)
            },
            None => {
                proof {
                    if Self::spec_load_constant(orig, address, little, n) is Some {
                        assert forall|k: int| 0 <= k < n as int implies orig.contains_key(
                            #[trigger] ((address + k) as u64),
                        ) by {
                            assert(orig[(address + k) as u64] is Constant);
                        }
                        assert(self.view_map() == orig);
                        assert(Self::spec_load_constant(self.view_map(), address, little, n)
                            is Some);
                    }
                }
                // Compose the bytes symbolically: each byte zero-extended
                // and shifted to its position.
                let ghost mfinal = self.view_map();
                let little_now = match self.endian {
                    Endian::Little => true,
                    Endian::Big => false,
                };
                let mut acc = Expression::Constant(Constant { value: 0, bits });
                proof {
                    assert(0u64 & mask_of(bits) == 0u64) by (bit_vector);
                }
                let mut k: u32 = 0;
                while k < n
                    invariant
                        0 <= k <= n,
                        1 <= n <= 8,
                        bits == 8 * n,
                        self.wf(),
                        self.endian == old(self).endian,
                        little_now == (old(self).endian == Endian::Little),
                        mfinal == self.view_map(),
                        address as int + n as int - 1 <= u64::MAX as int,
                        forall|kk: int|
                            0 <= kk < n as int ==> self.view_map().contains_key(
                                #[trigger] ((address + kk) as u64),
                            ),
                        acc.wf(),
                        acc.spec_bits() == bits,
                        acc == Self::spec_compose_expr(mfinal, address, little_now, n, k),
                    decreases n - k,
                {
                    let byte = match self.load_byte(address + (k as u64)) {
                        Some(e) => e.clone(),
                        None => {
                            proof {
                                assert(false);
                            }
                            Expression::Constant(Constant { value: 0, bits: 8 })
                        },
                    };
                    proof {
                        assert(byte == mfinal[(address + k) as u64]);
                    }
                    proof {
                        assert(0u64 & mask_of(8) == 0u64) by (bit_vector);
                    }
                    let pos: u32 = if little_now {
                        k
                    } else {
                        n - 1 - k
                    };
                    proof {
                        assert(pos == byte_source(little_now, n, k));
                    }
                    let shift = (8 * pos) as u64;
                    proof {
                        assert(shift & mask_of(64) == shift) by (bit_vector)
                            requires
                                shift <= 56,
                        ;
                    }
                    let amount = Expression::Constant(Constant { value: shift, bits: 64 });
                    proof {
                        assert(amount.wf());
                    }
                    let wide = Expression::Unop(UnOp::Zext(bits), Box::new(byte));
                    proof {
                        assert(wide.wf());
                        assert(wide.spec_bits() == bits);
                    }
                    let shifted = Expression::Binop(BinOp::Shl, Box::new(wide), Box::new(amount));
                    proof {
                        assert(shifted.wf());
                        assert(shifted.spec_bits() == bits);
                    }
                    acc = Expression::Binop(BinOp::Or, Box::new(acc), Box::new(shifted));
                    proof {
                        assert(acc.wf());
                        assert(acc.spec_bits() == bits);
                        assert(acc == Self::spec_compose_expr(mfinal, address, little_now, n, (k + 1) as u32));
                    }
                    k = k + 1;
                }
                acc
            },
        }
    }
}


/// Every expression the memory's mapping holds is a well-formed byte.
pub proof fn lemma_view_map_wf(m: SymbolicMemory)
    requires
        m.wf(),
    ensures
        forall|a: u64|
            #[trigger] m.view_map().contains_key(a) ==> m.view_map()[a].wf()
                && m.view_map()[a].spec_bits() == 8,
{
    lemma_cells_map_dom(m.cells@);
    lemma_cells_map_index(m.cells@);
    assert forall|a: u64| #[trigger] m.view_map().contains_key(a) implies m.view_map()[a].wf()
        && m.view_map()[a].spec_bits() == 8 by {
        let i = choose|i: int| 0 <= i < m.cells@.len() && (#[trigger] m.cells@[i]).0 == a;
        assert(cells_map(m.cells@)[m.cells@[i].0] == m.cells@[i].1);
    }
}

/// A value composed of well-formed bytes fits the width it composes to.
pub proof fn lemma_compose_fits(
    m: Map<u64, Expression>,
    address: u64,
    little: bool,
    n: u32,
    j: u32,
)
    requires
        1 <= n <= 8,
        j <= n,
        forall|k: int|
            0 <= k < n as int ==> m.contains_key((address + k) as u64) && (#[trigger] m[(address
                + k) as u64]) is Constant && m[(address + k) as u64]->Constant_0.wf() && m[(address
                + k) as u64]->Constant_0.bits == 8,
    ensures
        SymbolicMemory::compose_bytes(m, address, little, n, j) & mask_of((8 * n) as u32)
            == SymbolicMemory::compose_bytes(m, address, little, n, j),
    decreases j,
{
    let mask = mask_of((8 * n) as u32);
    if j == 0 {
        assert(0u64 & mask == 0u64) by (bit_vector);
    } else {
        lemma_compose_fits(m, address, little, n, (j - 1) as u32);
        let prev = SymbolicMemory::compose_bytes(m, address, little, n, (j - 1) as u32);
        let c = m[(address + (j - 1)) as u64]->Constant_0;
        let bv = c.value;
        let pos = byte_source(little, n, (j - 1) as u32);
        let sh = (8 * pos) as u64;
        assert(m[(address + (j - 1)) as u64] is Constant);
        assert(c.wf() && c.bits == 8);
        assert((((1u64 << 8u64) as u64 - 1) as u64) == 0xffu64) by (bit_vector);
        assert(bv & 0xffu64 == bv);
        assert(pos < n);
        if n == 8 {
            assert(mask == 0xffff_ffff_ffff_ffffu64);
            assert((prev | ((bv << sh) as u64)) & 0xffff_ffff_ffff_ffffu64 == (prev | ((bv << sh)
                as u64))) by (bit_vector);
        } else {
            let s2 = (8 * n) as u64;
            assert(mask == (((1u64 << s2) as u64 - 1) as u64));
            assert((prev | ((bv << sh) as u64)) & (((1u64 << s2) as u64 - 1) as u64) == (prev | ((bv
                << sh) as u64))) by (bit_vector)
                requires
                    bv & 0xffu64 == bv,
                    sh + 8 <= s2 < 64,
                    prev & (((1u64 << s2) as u64 - 1) as u64) == prev,
            ;
        }
    }
}

/// Storing one concrete byte and loading one byte back returns the same
/// value, whichever byte order the memory is configured with.
pub proof fn lemma_byte_round_trip(m: Map<u64, Expression>, address: u64, c: Constant, little: bool)
    requires
        c.wf(),
        c.bits == 8,
        m.contains_key(address),
        m[address] == spec_extract_byte(Expression::Constant(c), byte_source(little, 1, 0)),
    ensures
        SymbolicMemory::spec_load_constant(m, address, little, 1) == Some(c),
{
    assert(byte_source(little, 1, 0) == 0);
    let b = spec_extract_byte(Expression::Constant(c), 0);
    assert(b == Expression::Constant(
        Constant { value: (c.value >> 0u64) & 0xffu64, bits: 8 },
    ));
    let cv = c.value;
    assert((cv >> 0u64) & 0xffu64 == cv) by (bit_vector)
        requires
            cv & (((1u64 << 8u64) as u64 - 1) as u64) == cv,
    ;
    assert(forall|k: int|
        0 <= k < 1 ==> m.contains_key((address + k) as u64) && (#[trigger] m[(address + k) as u64])
            is Constant);
    let composed = SymbolicMemory::compose_bytes(m, address, little, 1, 1);
    assert(SymbolicMemory::compose_bytes(m, address, little, 1, 0) == 0u64);
    assert(composed == (0u64 | (cv << 0u64) as u64));
    assert(0u64 | (cv << 0u64) as u64 == cv) by (bit_vector);
}

} // verus!
