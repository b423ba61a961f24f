//! Quadtree tile keys and the sparse quadtree that indexes tile data.
//!
//! A key addresses one cell of a tile pyramid: a depth (pyramid level) and a
//! pair of cell coordinates, each less than 2^depth.

use std::collections::HashMap;

use vstd::prelude::*;
use vstd::arithmetic::power2::{
    lemma2_to64, lemma_pow2_adds, lemma_pow2_pos, lemma_pow2_strictly_increases,
    lemma_pow2_unfold, pow2,
};
use vstd::arithmetic::div_mod::{
    lemma_breakdown, lemma_div_basics, lemma_div_denominator, lemma_div_pos_is_pos,
    lemma_fundamental_div_mod, lemma_fundamental_div_mod_converse, lemma_multiply_divide_lt,
};
use vstd::bits::{
    lemma_u32_low_bits_mask_is_mod, lemma_u32_pow2_no_overflow, lemma_u32_shl_is_mul,
    low_bits_mask,
};

verus! {

broadcast use vstd::std_specs::hash::group_hash_axioms;

/// Packed spatial identifier for one cell of a quadtree tile pyramid.
///
/// Invariant: `depth <= 28`, `x < 2^depth`, `y < 2^depth`. Two keys are equal
/// exactly when depth and both coordinates coincide, which is exactly when
/// their packed encodings coincide.
#[derive(Debug, Clone, Copy, PartialEq, Eq, Structural, Hash)]
pub struct QTreeKey {
    depth: u8,
    x: u32,
    y: u32,
}

/// The packed encoding of a (depth, x, y) triple: depth in the bits above 56,
/// x in the bits above 28, y in the low bits.
pub open spec fn key_code(d: int, x: int, y: int) -> int {
    d * 0x100000000000000 + x * 0x10000000 + y
}

impl QTreeKey {
    /// Well-formedness of a key: what the type invariant maintains. Every key
    /// held by executable code satisfies it.
    #[verifier::type_invariant]
    pub closed spec fn wf(self) -> bool {
        &&& self.depth <= 28
        &&& (self.x as nat) < pow2(self.depth as nat)
        &&& (self.y as nat) < pow2(self.depth as nat)
    }

    /// The pyramid level of this key.
    pub closed spec fn spec_depth(self) -> int {
        self.depth as int
    }

    /// The horizontal cell coordinate of this key.
    pub closed spec fn spec_x(self) -> int {
        self.x as int
    }

    /// The vertical cell coordinate of this key.
    pub closed spec fn spec_y(self) -> int {
        self.y as int
    }

    /// The packed encoding of this key.
    pub open spec fn spec_key(self) -> int {
        key_code(self.spec_depth(), self.spec_x(), self.spec_y())
    }

    /// Every key observes the pyramid bounds: depth at most 28 and both
    /// coordinates below 2^depth (hence below 2^28).
    pub proof fn lemma_bounds(self)
        requires
            self.wf(),
        ensures
            0 <= self.spec_depth() <= 28,
            0 <= self.spec_x() < pow2(self.spec_depth() as nat),
            0 <= self.spec_y() < pow2(self.spec_depth() as nat),
            self.spec_x() < 0x10000000,
            self.spec_y() < 0x10000000,
    {
        lemma2_to64();
        if self.depth < 28 {
            lemma_pow2_strictly_increases(self.depth as nat, 28);
        }
    }

    /// Keys that agree on depth and both coordinates are the same key.
    pub proof fn lemma_key_ext(a: QTreeKey, b: QTreeKey)
        requires
            a.spec_depth() == b.spec_depth(),
            a.spec_x() == b.spec_x(),
            a.spec_y() == b.spec_y(),
        ensures
            a == b,
    {
    }

    /// Returns the depth of the node. 0 <= depth <= 28.
    pub fn depth(&self) -> (r: u8)
        ensures
            r == self.spec_depth(),
    {
        self.depth
    }

    /// Returns the x coordinate of the node. 0 <= x < 2^depth.
    pub fn x(&self) -> (r: u32)
        ensures
            r == self.spec_x(),
    {
        self.x
    }

    /// Returns the y coordinate of the node. 0 <= y < 2^depth.
    pub fn y(&self) -> (r: u32)
        ensures
            r == self.spec_y(),
    {
        self.y
    }

    /// Builds the key for (depth, x, y). Fails exactly when depth exceeds 28;
    /// coordinates are silently truncated to their low depth bits.
    pub fn new(depth: u8, x: u32, y: u32) -> (r: Option<QTreeKey>)
        ensures
            r is Some <==> depth <= 28,
            depth <= 28 ==> (r matches Some(k)
                && k.spec_depth() == depth
                && k.spec_x() == (x as int) % (pow2(depth as nat) as int)
                && k.spec_y() == (y as int) % (pow2(depth as nat) as int)),
    {
        if depth > 28 {
            return None;
        }
        proof {
            lemma_u32_pow2_no_overflow(depth as nat);
            lemma_pow2_pos(depth as nat);
            lemma_u32_shl_is_mul(1u32, depth as u32);
        }
        let side: u32 = 1u32 << (depth as u32);
        let mask: u32 = side - 1;
        proof {
            assert(mask == low_bits_mask(depth as nat));
            lemma_u32_low_bits_mask_is_mod(x, depth as nat);
            lemma_u32_low_bits_mask_is_mod(y, depth as nat);
        }
        Some(QTreeKey { depth, x: x & mask, y: y & mask })
    }

    /// The key of the root cell: depth 0, coordinates 0.
    pub fn root() -> (r: QTreeKey)
        ensures
            r.spec_depth() == 0,
            r.spec_x() == 0,
            r.spec_y() == 0,
    {
        proof {
            lemma_pow2_pos(0);
        }
        QTreeKey { depth: 0, x: 0, y: 0 }
    }

    /// Returns the key of the parent node, or nothing at the root.
    pub fn parent(&self) -> (r: Option<QTreeKey>)
        ensures
            r is Some <==> self.spec_depth() > 0,
            self.spec_depth() > 0 ==> (r matches Some(p)
                && p.spec_depth() == self.spec_depth() - 1
                && p.spec_x() == self.spec_x() / 2
                && p.spec_y() == self.spec_y() / 2),
    {
        proof {
            use_type_invariant(*self);
        }
        if self.depth == 0 {
            None
        } else {
            proof {
                lemma_pow2_unfold(self.depth as nat);
            }
            Some(QTreeKey { depth: self.depth - 1, x: self.x / 2, y: self.y / 2 })
        }
    }

    /// Returns the key of the left top child node, or nothing at depth 28.
    pub fn child_lt(&self) -> (r: Option<QTreeKey>)
        ensures
            r is Some <==> self.spec_depth() < 28,
            self.spec_depth() < 28 ==> (r matches Some(c)
                && c.spec_depth() == self.spec_depth() + 1
                && c.spec_x() == 2 * self.spec_x()
                && c.spec_y() == 2 * self.spec_y()),
    {
        proof {
            use_type_invariant(*self);
            self.child_bounds();
        }
        if self.depth >= 28 {
            None
        } else {
            Some(QTreeKey { depth: self.depth + 1, x: 2 * self.x, y: 2 * self.y })
        }
    }

    /// Returns the key of the right top child node, or nothing at depth 28.
    pub fn child_rt(&self) -> (r: Option<QTreeKey>)
        ensures
            r is Some <==> self.spec_depth() < 28,
            self.spec_depth() < 28 ==> (r matches Some(c)
                && c.spec_depth() == self.spec_depth() + 1
                && c.spec_x() == 2 * self.spec_x() + 1
                && c.spec_y() == 2 * self.spec_y()),
    {
        proof {
            use_type_invariant(*self);
            self.child_bounds();
        }
        if self.depth >= 28 {
            None
        } else {
            Some(QTreeKey { depth: self.depth + 1, x: 2 * self.x + 1, y: 2 * self.y })
        }
    }

    /// Returns the key of the left bottom child node, or nothing at depth 28.
    pub fn child_lb(&self) -> (r: Option<QTreeKey>)
        ensures
            r is Some <==> self.spec_depth() < 28,
            self.spec_depth() < 28 ==> (r matches Some(c)
                && c.spec_depth() == self.spec_depth() + 1
                && c.spec_x() == 2 * self.spec_x()
                && c.spec_y() == 2 * self.spec_y() + 1),
    {
        proof {
            use_type_invariant(*self);
            self.child_bounds();
        }
        if self.depth >= 28 {
            None
        } else {
            Some(QTreeKey { depth: self.depth + 1, x: 2 * self.x, y: 2 * self.y + 1 })
        }
    }

    /// Returns the key of the right bottom child node, or nothing at depth 28.
    pub fn child_rb(&self) -> (r: Option<QTreeKey>)
        ensures
            r is Some <==> self.spec_depth() < 28,
            self.spec_depth() < 28 ==> (r matches Some(c)
                && c.spec_depth() == self.spec_depth() + 1
                && c.spec_x() == 2 * self.spec_x() + 1
                && c.spec_y() == 2 * self.spec_y() + 1),
    {
        proof {
            use_type_invariant(*self);
            self.child_bounds();
        }
        if self.depth >= 28 {
            None
        } else {
            Some(QTreeKey { depth: self.depth + 1, x: 2 * self.x + 1, y: 2 * self.y + 1 })
        }
    }

    /// Shared bound reasoning for the four child constructors.
    proof fn child_bounds(self)
        requires
            self.wf(),
        ensures
            0 <= self.spec_depth() <= 28,
            0 <= self.spec_x() < pow2(self.spec_depth() as nat),
            0 <= self.spec_y() < pow2(self.spec_depth() as nat),
            self.spec_depth() < 28 ==> {
                &&& 2 * self.spec_x() + 1 < pow2((self.spec_depth() + 1) as nat)
                &&& 2 * self.spec_y() + 1 < pow2((self.spec_depth() + 1) as nat)
                &&& pow2((self.spec_depth() + 1) as nat) <= 0x10000000
            },
    {
        lemma2_to64();
        if self.depth < 28 {
            lemma_pow2_unfold((self.depth + 1) as nat);
            if self.depth + 1 < 28 {
                lemma_pow2_strictly_increases((self.depth + 1) as nat, 28);
            }
        }
    }

    /// The neighbor one cell to the left, wrapping to the right edge of the
    /// grid at column zero.
    pub fn left(&self) -> (r: QTreeKey)
        ensures
            r.spec_depth() == self.spec_depth(),
            r.spec_y() == self.spec_y(),
            r.spec_x() == if self.spec_x() == 0 {
                pow2(self.spec_depth() as nat) - 1
            } else {
                self.spec_x() - 1
            },
    {
        proof {
            use_type_invariant(*self);
            lemma_u32_pow2_no_overflow(self.depth as nat);
            lemma_u32_shl_is_mul(1u32, self.depth as u32);
        }
        let side: u32 = 1u32 << (self.depth as u32);
        if self.x == 0 {
            QTreeKey { depth: self.depth, x: side - 1, y: self.y }
        } else {
            QTreeKey { depth: self.depth, x: self.x - 1, y: self.y }
        }
    }

    /// The neighbor one cell to the right, wrapping to the left edge of the
    /// grid at the last column.
    pub fn right(&self) -> (r: QTreeKey)
        ensures
            r.spec_depth() == self.spec_depth(),
            r.spec_y() == self.spec_y(),
            r.spec_x() == if self.spec_x() == pow2(self.spec_depth() as nat) - 1 {
                0
            } else {
                self.spec_x() + 1
            },
    {
        proof {
            use_type_invariant(*self);
            lemma_u32_pow2_no_overflow(self.depth as nat);
            lemma_u32_shl_is_mul(1u32, self.depth as u32);
        }
        let side: u32 = 1u32 << (self.depth as u32);
        if self.x == side - 1 {
            QTreeKey { depth: self.depth, x: 0, y: self.y }
        } else {
            QTreeKey { depth: self.depth, x: self.x + 1, y: self.y }
        }
    }

    /// The neighbor one cell up, wrapping to the bottom edge of the grid at
    /// row zero.
    pub fn top(&self) -> (r: QTreeKey)
        ensures
            r.spec_depth() == self.spec_depth(),
            r.spec_x() == self.spec_x(),
            r.spec_y() == if self.spec_y() == 0 {
                pow2(self.spec_depth() as nat) - 1
            } else {
                self.spec_y() - 1
            },
    {
        proof {
            use_type_invariant(*self);
            lemma_u32_pow2_no_overflow(self.depth as nat);
            lemma_u32_shl_is_mul(1u32, self.depth as u32);
        }
        let side: u32 = 1u32 << (self.depth as u32);
        if self.y == 0 {
            QTreeKey { depth: self.depth, x: self.x, y: side - 1 }
        } else {
            QTreeKey { depth: self.depth, x: self.x, y: self.y - 1 }
        }
    }

    /// The neighbor one cell down, wrapping to the top edge of the grid at
    /// the last row.
    pub fn bottom(&self) -> (r: QTreeKey)
        ensures
            r.spec_depth() == self.spec_depth(),
            r.spec_x() == self.spec_x(),
            r.spec_y() == if self.spec_y() == pow2(self.spec_depth() as nat) - 1 {
                0
            } else {
                self.spec_y() + 1
            },
    {
        proof {
            use_type_invariant(*self);
            lemma_u32_pow2_no_overflow(self.depth as nat);
            lemma_u32_shl_is_mul(1u32, self.depth as u32);
        }
        let side: u32 = 1u32 << (self.depth as u32);
        if self.y == side - 1 {
            QTreeKey { depth: self.depth, x: self.x, y: 0 }
        } else {
            QTreeKey { depth: self.depth, x: self.x, y: self.y + 1 }
        }
    }

    /// The packed 64-bit encoding of this key, the value used to index every
    /// cache tier.
    pub fn inner_key(&self) -> (r: u64)
        ensures
            r == self.spec_key(),
    {
        proof {
            use_type_invariant(*self);
            self.lemma_bounds();
        }
        let d: u64 = self.depth as u64;
        let x: u64 = self.x as u64;
        let y: u64 = self.y as u64;
        let r: u64 = (d << 56) | (x << 28) | y;
        proof {
            assert((d << 56) | (x << 28) | y
                == d * 0x100000000000000 + x * 0x10000000 + y) by (bit_vector)
                requires
                    d <= 28,
                    x < 0x10000000,
                    y < 0x10000000,
            ;
        }
        r
    }
}

/// The encoding of a key, as the quadtree and the caches index it.
pub open spec fn key_enc(k: QTreeKey) -> u64 {
    k.spec_key() as u64
}

/// The depth packed in an encoding.
pub open spec fn code_depth(e: u64) -> int {
    e as int / 0x100000000000000
}

/// The x coordinate packed in an encoding.
pub open spec fn code_x(e: u64) -> int {
    (e as int / 0x10000000) % 0x10000000
}

/// The y coordinate packed in an encoding.
pub open spec fn code_y(e: u64) -> int {
    e as int % 0x10000000
}

/// An encoding is well formed when it packs a well-formed key: depth at most
/// 28 and coordinates below 2^depth.
pub open spec fn code_wf(e: u64) -> bool {
    &&& code_depth(e) <= 28
    &&& code_x(e) < pow2(code_depth(e) as nat)
    &&& code_y(e) < pow2(code_depth(e) as nat)
}

/// The encoding of the ancestor j levels above the cell that e encodes.
pub open spec fn code_anc(e: u64, j: int) -> u64 {
    key_code(
        code_depth(e) - j,
        code_x(e) / pow2(j as nat) as int,
        code_y(e) / pow2(j as nat) as int,
    ) as u64
}

/// The encoding of the parent cell.
pub open spec fn code_parent(e: u64) -> u64 {
    code_anc(e, 1)
}

/// Whether e lies in the subtree rooted at r: r encodes e's cell itself or
/// one of its ancestors.
pub open spec fn code_in_subtree(e: u64, r: u64) -> bool {
    &&& code_depth(e) >= code_depth(r)
    &&& code_anc(e, code_depth(e) - code_depth(r)) == r
}

/// The set of encodings of all proper ancestors of the cell that e encodes.
pub open spec fn code_ancestors(e: u64) -> Set<u64> {
    Set::new(|a: u64| exists|j: int| 1 <= j <= code_depth(e) && a == #[trigger] code_anc(e, j))
}

/// The set of encodings of the whole subtree under e, e itself included.
pub open spec fn code_subtree(e: u64) -> Set<u64> {
    Set::new(|a: u64| code_in_subtree(a, e))
}

/// 2^n is at most 2^28 for n at most 28.
proof fn lemma_pow2_le_28(n: nat)
    requires
        n <= 28,
    ensures
        0 < pow2(n) <= 0x10000000,
{
    lemma_pow2_pos(n);
    lemma2_to64();
    if n < 28 {
        lemma_pow2_strictly_increases(n, 28);
    }
}

/// Packing a bounded triple and decomposing it again recovers its parts.
pub proof fn lemma_code_decode(d: int, x: int, y: int)
    requires
        0 <= d <= 28,
        0 <= x < 0x10000000,
        0 <= y < 0x10000000,
    ensures
        0 <= key_code(d, x, y) < 0x2000000000000000,
        code_depth(key_code(d, x, y) as u64) == d,
        code_x(key_code(d, x, y) as u64) == x,
        code_y(key_code(d, x, y) as u64) == y,
{
    let p56: int = 0x100000000000000;
    let p28: int = 0x10000000;
    let c = key_code(d, x, y);
    assert(0 <= x * p28 + y < p56) by (nonlinear_arith)
        requires
            0 <= x < p28,
            0 <= y < p28,
            p56 == p28 * p28,
    ;
    assert(0 <= d * p56 <= 28 * p56) by (nonlinear_arith)
        requires
            0 <= d <= 28,
            0 < p56,
    ;
    assert((d * p28 + x) * p28 + y == d * p56 + x * p28 + y) by (nonlinear_arith)
        requires
            p56 == p28 * p28,
    ;
    assert(0 <= d * p28 + x) by (nonlinear_arith)
        requires
            0 <= d,
            0 <= x,
            0 < p28,
    ;
    lemma_fundamental_div_mod_converse(c, p56, d, x * p28 + y);
    lemma_fundamental_div_mod_converse(c, p28, d * p28 + x, y);
    lemma_fundamental_div_mod_converse(d * p28 + x, p28, d, x);
}

/// Every 64-bit value equals the packing of its decomposed parts.
pub proof fn lemma_code_reconstruct(e: u64)
    ensures
        e as int == key_code(code_depth(e), code_x(e), code_y(e)),
{
    let p56: int = 0x100000000000000;
    let p28: int = 0x10000000;
    lemma_fundamental_div_mod(e as int, p56);
    lemma_breakdown(e as int, p28, p28);
}

/// The encoding of a well-formed key decodes to the key's own fields.
pub proof fn lemma_key_decode(k: QTreeKey)
    requires
        k.wf(),
    ensures
        0 <= k.spec_key() < 0x2000000000000000,
        code_depth(key_enc(k)) == k.spec_depth(),
        code_x(key_enc(k)) == k.spec_x(),
        code_y(key_enc(k)) == k.spec_y(),
        code_wf(key_enc(k)),
{
    k.lemma_bounds();
    lemma_code_decode(k.spec_depth(), k.spec_x(), k.spec_y());
}

/// Distinct well-formed keys have distinct encodings, and conversely.
pub proof fn lemma_key_enc_injective(a: QTreeKey, b: QTreeKey)
    requires
        a.wf(),
        b.wf(),
    ensures
        key_enc(a) == key_enc(b) <==> a == b,
{
    if key_enc(a) == key_enc(b) {
        lemma_key_decode(a);
        lemma_key_decode(b);
        QTreeKey::lemma_key_ext(a, b);
    }
}

/// Decoding the encoding of an ancestor.
pub proof fn lemma_anc_decode(e: u64, j: int)
    requires
        code_wf(e),
        0 <= j <= code_depth(e),
    ensures
        code_wf(code_anc(e, j)),
        code_depth(code_anc(e, j)) == code_depth(e) - j,
        code_x(code_anc(e, j)) == code_x(e) / pow2(j as nat) as int,
        code_y(code_anc(e, j)) == code_y(e) / pow2(j as nat) as int,
{
    let d = code_depth(e);
    let x = code_x(e);
    let y = code_y(e);
    let pj = pow2(j as nat) as int;
    let pd = pow2((d - j) as nat) as int;
    lemma_pow2_pos(j as nat);
    lemma_pow2_pos((d - j) as nat);
    lemma_pow2_adds(j as nat, (d - j) as nat);
    lemma_pow2_le_28((d - j) as nat);
    lemma_div_pos_is_pos(x, pj);
    lemma_div_pos_is_pos(y, pj);
    lemma_multiply_divide_lt(x, pj, pd);
    lemma_multiply_divide_lt(y, pj, pd);
    lemma_code_decode(d - j, x / pj, y / pj);
}

/// A cell is its own ancestor at distance zero.
pub proof fn lemma_anc_zero(e: u64)
    ensures
        code_anc(e, 0) == e,
{
    lemma2_to64();
    lemma_div_basics(code_x(e));
    lemma_div_basics(code_y(e));
    lemma_code_reconstruct(e);
}

/// Ancestors compose: the j-level ancestor of the i-level ancestor is the
/// (i+j)-level ancestor.
pub proof fn lemma_anc_compose(e: u64, i: int, j: int)
    requires
        code_wf(e),
        0 <= i,
        0 <= j,
        i + j <= code_depth(e),
    ensures
        code_anc(code_anc(e, i), j) == code_anc(e, i + j),
{
    lemma_anc_decode(e, i);
    lemma_pow2_pos(i as nat);
    lemma_pow2_pos(j as nat);
    lemma_pow2_adds(i as nat, j as nat);
    lemma_div_denominator(code_x(e), pow2(i as nat) as int, pow2(j as nat) as int);
    lemma_div_denominator(code_y(e), pow2(i as nat) as int, pow2(j as nat) as int);
}

/// Stepping one level up from the j-level ancestor reaches level j+1.
pub proof fn lemma_anc_step(e: u64, j: int)
    requires
        code_wf(e),
        0 <= j < code_depth(e),
    ensures
        code_parent(code_anc(e, j)) == code_anc(e, j + 1),
{
    lemma_anc_compose(e, j, 1);
}

/// Subtree membership is reflexive on well-formed encodings.
pub proof fn lemma_subtree_refl(e: u64)
    ensures
        code_in_subtree(e, e),
{
    lemma_anc_zero(e);
}

/// Subtree membership is transitive.
pub proof fn lemma_subtree_trans(e: u64, m: u64, r: u64)
    requires
        code_wf(e),
        code_in_subtree(e, m),
        code_in_subtree(m, r),
    ensures
        code_in_subtree(e, r),
{
    lemma_anc_compose(e, code_depth(e) - code_depth(m), code_depth(m) - code_depth(r));
    lemma_anc_decode(e, code_depth(e) - code_depth(m));
}

/// A strict descendant of r lies under the child of r on the path towards
/// it, which is the ancestor one level below r.
pub proof fn lemma_subtree_through_child(e: u64, r: u64)
    requires
        code_wf(e),
        code_in_subtree(e, r),
        code_depth(e) > code_depth(r),
    ensures
        code_wf(code_anc(e, code_depth(e) - code_depth(r) - 1)),
        code_depth(code_anc(e, code_depth(e) - code_depth(r) - 1)) == code_depth(r) + 1,
        code_parent(code_anc(e, code_depth(e) - code_depth(r) - 1)) == r,
        code_in_subtree(e, code_anc(e, code_depth(e) - code_depth(r) - 1)),
{
    let j = code_depth(e) - code_depth(r) - 1;
    lemma_anc_decode(e, j);
    lemma_anc_step(e, j);
    lemma_anc_compose(e, j, 0);
    lemma_anc_zero(code_anc(e, j));
}

/// Two cells of one subtree at the same depth are the same cell; in
/// particular the only cell of r's subtree at r's own depth is r.
pub proof fn lemma_subtree_same_depth(e: u64, r: u64)
    requires
        code_in_subtree(e, r),
        code_depth(e) == code_depth(r),
    ensures
        e == r,
{
    lemma_anc_zero(e);
}

/// A cell one level below its parent has coordinates twice the parent's,
/// offset by at most one in each axis.
pub proof fn lemma_child_codes(c: u64)
    requires
        code_wf(c),
        code_depth(c) > 0,
    ensures
        code_x(c) == 2 * code_x(code_parent(c)) || code_x(c) == 2 * code_x(code_parent(c)) + 1,
        code_y(c) == 2 * code_y(code_parent(c)) || code_y(c) == 2 * code_y(code_parent(c)) + 1,
{
    lemma_anc_decode(c, 1);
    lemma2_to64();
    lemma_fundamental_div_mod(code_x(c), 2);
    lemma_fundamental_div_mod(code_y(c), 2);
}

/// Whether some element of the stack covers a: a lies strictly below an
/// entry of the stack.
#[verifier::opaque]
pub open spec fn stack_live(a: u64, s: Seq<QTreeKey>) -> bool {
    exists|i: int|
        0 <= i < s.len() && a != key_enc(#[trigger] s[i]) && code_in_subtree(a, key_enc(s[i]))
}

/// Well-formedness of the quadtree's backing map: every stored encoding is
/// well formed, and every stored non-root cell has its parent stored too.
pub open spec fn tree_map_wf<T>(m: Map<u64, QTreeNode<T>>) -> bool {
    forall|e: u64| #[trigger]
        m.contains_key(e) ==> code_wf(e) && (code_depth(e) > 0 ==> m.contains_key(code_parent(e)))
}

/// The code of a child cell: well formed, one level deeper, its parent the
/// cell itself.
proof fn lemma_child_of_key(k: QTreeKey, c: QTreeKey)
    requires
        k.wf(),
        c.wf(),
        c.spec_depth() == k.spec_depth() + 1,
        c.spec_x() == 2 * k.spec_x() || c.spec_x() == 2 * k.spec_x() + 1,
        c.spec_y() == 2 * k.spec_y() || c.spec_y() == 2 * k.spec_y() + 1,
    ensures
        code_wf(key_enc(c)),
        code_depth(key_enc(c)) == code_depth(key_enc(k)) + 1,
        code_x(key_enc(c)) == c.spec_x(),
        code_y(key_enc(c)) == c.spec_y(),
        code_parent(key_enc(c)) == key_enc(k),
        code_in_subtree(key_enc(c), key_enc(k)),
{
    lemma_key_decode(k);
    lemma_key_decode(c);
    lemma2_to64();
    lemma_anc_decode(key_enc(c), 1);
    lemma_fundamental_div_mod_converse(c.spec_x(), 2, k.spec_x(), c.spec_x() - 2 * k.spec_x());
    lemma_fundamental_div_mod_converse(c.spec_y(), 2, k.spec_y(), c.spec_y() - 2 * k.spec_y());
}

/// A well-formed code one level below k whose parent is k carries one of the
/// four child coordinate pairs of k.
proof fn lemma_child_coverage(k: QTreeKey, a: u64)
    requires
        k.wf(),
        code_wf(a),
        code_depth(a) == k.spec_depth() + 1,
        code_parent(a) == key_enc(k),
    ensures
        a as int == key_code(code_depth(a), code_x(a), code_y(a)),
        code_x(a) == 2 * k.spec_x() || code_x(a) == 2 * k.spec_x() + 1,
        code_y(a) == 2 * k.spec_y() || code_y(a) == 2 * k.spec_y() + 1,
{
    lemma_key_decode(k);
    lemma_child_codes(a);
    lemma_anc_decode(a, 1);
    lemma_code_reconstruct(a);
}

/// In a well-formed tree map, every ancestor of a stored cell is stored.
pub proof fn lemma_tree_ancestors_present<T>(m: Map<u64, QTreeNode<T>>, e: u64, j: int)
    requires
        tree_map_wf(m),
        m.contains_key(e),
        0 <= j <= code_depth(e),
    ensures
        m.contains_key(code_anc(e, j)),
    decreases j,
{
    if j == 0 {
        lemma_anc_zero(e);
    } else {
        lemma_tree_ancestors_present(m, e, j - 1);
        lemma_anc_decode(e, j - 1);
        lemma_anc_step(e, j - 1);
    }
}

/// a encodes a child cell of the cell that e encodes.
pub open spec fn code_child_of(a: u64, e: u64) -> bool {
    &&& code_wf(a)
    &&& code_depth(a) == code_depth(e) + 1
    &&& code_parent(a) == e
}

/// In a well-formed map, a stored strict descendant of a stored cell leads
/// through a stored child of that cell: the ancestor one level below it.
pub proof fn lemma_through_child_present<T>(m: Map<u64, QTreeNode<T>>, e: u64, a: u64)
    requires
        tree_map_wf(m),
        code_wf(e),
        m.contains_key(a),
        code_in_subtree(a, e),
        a != e,
    ensures
        code_depth(a) > code_depth(e),
        code_child_of(code_anc(a, code_depth(a) - code_depth(e) - 1), e),
        code_in_subtree(a, code_anc(a, code_depth(a) - code_depth(e) - 1)),
        m.contains_key(code_anc(a, code_depth(a) - code_depth(e) - 1)),
{
    if code_depth(a) == code_depth(e) {
        lemma_subtree_same_depth(a, e);
    }
    lemma_subtree_through_child(a, e);
    lemma_tree_ancestors_present(m, a, code_depth(a) - code_depth(e) - 1);
}

/// How one sweep step turns the old map and stack into the new ones: exactly
/// the stored children of the popped key leave the map and enter the stack
/// behind the untouched prefix.
#[verifier::opaque]
spec fn sweep_evolution<T>(
    m_pre: Map<u64, QTreeNode<T>>,
    s_mid: Seq<QTreeKey>,
    k: QTreeKey,
    m_new: Map<u64, QTreeNode<T>>,
    s_new: Seq<QTreeKey>,
) -> bool {
    &&& forall|a: u64| #[trigger]
        m_new.contains_key(a) <==> (m_pre.contains_key(a) && !code_child_of(a, key_enc(k)))
    &&& forall|a: u64| #[trigger] m_new.contains_key(a) ==> m_new[a] == m_pre[a]
    &&& s_mid.len() <= s_new.len()
    &&& forall|i: int| 0 <= i < s_mid.len() ==> #[trigger] s_new[i] == s_mid[i]
    &&& forall|i: int|
        s_mid.len() <= i < s_new.len() ==> (#[trigger] s_new[i]).wf() && code_child_of(
            key_enc(s_new[i]), key_enc(k)) && m_pre.contains_key(key_enc(s_new[i]))
    &&& forall|a: u64|
        code_child_of(a, key_enc(k)) && #[trigger] m_pre.contains_key(a) ==> exists|i: int|
            s_mid.len() <= i < s_new.len() && key_enc(#[trigger] s_new[i]) == a
    &&& forall|i: int, l: int|
        s_mid.len() <= i < s_new.len() && s_mid.len() <= l < s_new.len() && i != l
            ==> key_enc(#[trigger] s_new[i]) != key_enc(#[trigger] s_new[l])
    &&& m_new.dom().len() <= m_pre.dom().len()
    &&& (s_new.len() > s_mid.len() ==> m_new.dom().len() < m_pre.dom().len())
    &&& (s_new.len() == s_mid.len() ==> m_new == m_pre)
}

/// The sweep loop's invariants over the current map and stack: the map is a
/// sub-map of the original, everything of the removal subtree still stored is
/// covered by a stack entry, and the stack holds pairwise disjoint subtrees
/// of the removal root.
#[verifier::opaque]
spec fn sweep_inv<T>(
    m0: Map<u64, QTreeNode<T>>,
    enc_g: u64,
    m: Map<u64, QTreeNode<T>>,
    s: Seq<QTreeKey>,
) -> bool {
    &&& forall|a: u64| #[trigger] m.contains_key(a) ==> m0.contains_key(a) && m[a] == m0[a]
    &&& forall|a: u64| #[trigger]
        m.contains_key(a) <==> (m0.contains_key(a) && (code_in_subtree(a, enc_g) ==> stack_live(
            a, s)))
    &&& forall|i: int|
        0 <= i < s.len() ==> (#[trigger] s[i]).wf() && code_in_subtree(key_enc(s[i]), enc_g)
            && !m.contains_key(key_enc(s[i])) && (m0.contains_key(key_enc(s[i])) || key_enc(
            s[i]) == enc_g)
    &&& forall|i: int, l: int|
        0 <= i < s.len() && 0 <= l < s.len() && i != l ==> !code_in_subtree(
            key_enc(#[trigger] s[i]), key_enc(#[trigger] s[l]))
}

/// Ghost context of one sweep step of subtree removal: the state before the
/// step, the popped key, and the state after its stored children were removed
/// from the map and pushed.
struct SweepStep<T> {
    m0: Map<u64, QTreeNode<T>>,
    enc_g: u64,
    m_pre: Map<u64, QTreeNode<T>>,
    s_all: Seq<QTreeKey>,
    k: QTreeKey,
    m_new: Map<u64, QTreeNode<T>>,
    s_new: Seq<QTreeKey>,
}

impl<T> SweepStep<T> {
    /// The sweep loop invariants, over the state before the step.
    spec fn inv_pre(self) -> bool {
        &&& tree_map_wf(self.m0)
        &&& code_wf(self.enc_g)
        &&& sweep_inv(self.m0, self.enc_g, self.m_pre, self.s_all)
        &&& self.s_all.len() > 0
        &&& self.k == self.s_all.last()
        &&& self.k.wf()
    }

    /// The map/stack transition of this step.
    spec fn evolution(self) -> bool {
        sweep_evolution(self.m_pre, self.s_all.drop_last(), self.k, self.m_new, self.s_new)
    }

    spec fn pre(self) -> bool {
        self.inv_pre() && self.evolution()
    }

    /// Code-level shape: children of the popped key sit strictly inside the
    /// removal subtree, and a stored strict descendant of the popped key
    /// leads through a stored child.
    #[verifier::rlimit(100)]
    proof fn basics_code(self)
        requires
            self.pre(),
        ensures
            code_wf(key_enc(self.k)),
            code_in_subtree(key_enc(self.k), self.enc_g),
            !self.m_pre.contains_key(key_enc(self.k)),
            forall|a: u64| #[trigger]
                code_child_of(a, key_enc(self.k)) ==> code_in_subtree(a, self.enc_g) && a
                    != key_enc(self.k) && code_in_subtree(a, key_enc(self.k)),
    {
        reveal(sweep_inv);
        let enc_k = key_enc(self.k);
        lemma_key_decode(self.k);
        assert forall|a: u64| #[trigger] code_child_of(a, enc_k) implies code_in_subtree(
            a, self.enc_g) && a != enc_k && code_in_subtree(a, enc_k) by {
            assert(code_anc(a, 1) == enc_k);
            assert(code_in_subtree(a, enc_k));
            lemma_subtree_trans(a, enc_k, self.enc_g);
        };
    }

    /// A stored strict descendant of the popped key leads through a stored
    /// child of the popped key.
    proof fn through_child(self, a: u64)
        requires
            self.pre(),
            self.m0.contains_key(a),
            code_in_subtree(a, key_enc(self.k)),
            a != key_enc(self.k),
        ensures
            code_depth(a) > code_depth(key_enc(self.k)),
            code_child_of(
                code_anc(a, code_depth(a) - code_depth(key_enc(self.k)) - 1), key_enc(self.k)),
            code_in_subtree(a, code_anc(a, code_depth(a) - code_depth(key_enc(self.k)) - 1)),
            self.m0.contains_key(code_anc(a, code_depth(a) - code_depth(key_enc(self.k)) - 1)),
    {
        reveal(sweep_inv);
        lemma_key_decode(self.k);
        lemma_through_child_present(self.m0, key_enc(self.k), a);
    }

    /// A child of the popped key lies in no other stack entry's subtree:
    /// that entry would be an ancestor-or-self of the popped key, against the
    /// stack's pairwise disjointness.
    proof fn child_not_under_prefix(self, a: u64, idx: int)
        requires
            self.pre(),
            code_child_of(a, key_enc(self.k)),
            0 <= idx < self.s_all.len() - 1,
        ensures
            !code_in_subtree(a, key_enc(self.s_all[idx])),
    {
        reveal(sweep_inv);
        let enc_k = key_enc(self.k);
        let w = key_enc(self.s_all[idx]);
        lemma_key_decode(self.k);
        if code_in_subtree(a, w) {
            assert(code_depth(a) > code_depth(w)) by {
                if code_depth(a) == code_depth(w) {
                    lemma_subtree_same_depth(a, w);
                }
            };
            let m = code_depth(a) - code_depth(w);
            if m == 1 {
                assert(w == enc_k);
                lemma_subtree_refl(enc_k);
                assert(code_in_subtree(enc_k, key_enc(self.s_all[idx])));
                assert(false);
            } else {
                lemma_anc_compose(a, 1, m - 1);
                assert(code_anc(enc_k, m - 1) == w);
                lemma_anc_decode(a, 1);
                assert(code_in_subtree(enc_k, w));
                assert(false);
            }
        }
    }

    /// Whatever stays stored under the removal root is still covered.
    #[verifier::rlimit(100)]
    proof fn cov_fwd(self, a: u64)
        requires
            self.pre(),
            self.m_new.contains_key(a),
            code_in_subtree(a, self.enc_g),
        ensures
            stack_live(a, self.s_new),
    {
        reveal(stack_live);
        reveal(sweep_evolution);
        reveal(sweep_inv);
        self.basics_code();
        let enc_k = key_enc(self.k);
        let s_mid = self.s_all.drop_last();
        assert(self.m_pre.contains_key(a));
        assert(stack_live(a, self.s_all));
        let i0 = choose|i: int|
            0 <= i < self.s_all.len() && a != key_enc(#[trigger] self.s_all[i])
                && code_in_subtree(a, key_enc(self.s_all[i]));
        if i0 < self.s_all.len() - 1 {
            assert(a != key_enc(self.s_new[i0]) && code_in_subtree(a, key_enc(self.s_new[i0])));
        } else {
            // covered only through the popped key: descend through the child
            // of the popped key on the path towards a
            assert(code_in_subtree(a, enc_k) && a != enc_k);
            self.through_child(a);
            let cstar = code_anc(a, code_depth(a) - code_depth(enc_k) - 1);
            assert(code_child_of(cstar, enc_k) && code_in_subtree(a, cstar));
            assert(a != cstar) by {
                if a == cstar {
                    assert(!self.m_new.contains_key(a));
                }
            };
            assert(self.m_pre.contains_key(cstar)) by {
                assert(code_in_subtree(cstar, self.enc_g));
                assert(cstar != key_enc(self.s_all[self.s_all.len() - 1]) && code_in_subtree(
                    cstar, key_enc(self.s_all[self.s_all.len() - 1])));
                assert(stack_live(cstar, self.s_all));
            };
            let i1 = choose|i: int|
                s_mid.len() <= i < self.s_new.len() && key_enc(#[trigger] self.s_new[i])
                    == cstar;
            assert(a != key_enc(self.s_new[i1]) && code_in_subtree(a, key_enc(self.s_new[i1])));
        }
    }

    /// Whatever was stored and is still covered stays stored.
    #[verifier::rlimit(100)]
    proof fn cov_bwd(self, a: u64)
        requires
            self.pre(),
            self.m0.contains_key(a),
            code_in_subtree(a, self.enc_g) ==> stack_live(a, self.s_new),
        ensures
            self.m_new.contains_key(a),
    {
        reveal(stack_live);
        reveal(sweep_evolution);
        reveal(sweep_inv);
        self.basics_code();
        let enc_k = key_enc(self.k);
        let s_mid = self.s_all.drop_last();
        if !code_in_subtree(a, self.enc_g) {
            assert(self.m_pre.contains_key(a));
            if code_child_of(a, enc_k) {
                assert(code_in_subtree(a, self.enc_g));
            }
        } else {
            let i0 = choose|i: int|
                0 <= i < self.s_new.len() && a != key_enc(#[trigger] self.s_new[i])
                    && code_in_subtree(a, key_enc(self.s_new[i]));
            let w = key_enc(self.s_new[i0]);
            if i0 < s_mid.len() {
                assert(self.s_new[i0] == self.s_all[i0]);
                assert(stack_live(a, self.s_all));
                assert(self.m_pre.contains_key(a));
                if code_child_of(a, enc_k) {
                    self.child_not_under_prefix(a, i0);
                    assert(false);
                }
            } else {
                // covered by a freshly pushed child of the popped key
                assert(code_child_of(w, enc_k) && code_in_subtree(a, w) && a != w);
                assert(code_depth(a) > code_depth(w)) by {
                    if code_depth(a) == code_depth(w) {
                        lemma_subtree_same_depth(a, w);
                    }
                };
                assert(code_in_subtree(a, enc_k)) by {
                    lemma_subtree_trans(a, w, enc_k);
                };
                assert(a != enc_k);
                assert(stack_live(a, self.s_all)) by {
                    assert(a != key_enc(self.s_all[self.s_all.len() - 1]) && code_in_subtree(
                        a, key_enc(self.s_all[self.s_all.len() - 1])));
                };
                assert(self.m_pre.contains_key(a));
                assert(!code_child_of(a, enc_k)) by {
                    if code_child_of(a, enc_k) {
                        assert(code_depth(a) == code_depth(enc_k) + 1);
                    }
                };
            }
        }
    }

    /// The new stack entries keep the stack's own invariants.
    #[verifier::rlimit(100)]
    proof fn stack_shape(self, i: int, l: int)
        requires
            self.pre(),
            0 <= i < self.s_new.len(),
            0 <= l < self.s_new.len(),
        ensures
            (self.s_new[i]).wf(),
            code_in_subtree(key_enc(self.s_new[i]), self.enc_g),
            !self.m_new.contains_key(key_enc(self.s_new[i])),
            self.m0.contains_key(key_enc(self.s_new[i])) || key_enc(self.s_new[i])
                == self.enc_g,
            i != l ==> !code_in_subtree(key_enc(self.s_new[i]), key_enc(self.s_new[l])),
    {
        reveal(sweep_evolution);
        reveal(sweep_inv);
        self.basics_code();
        let enc_k = key_enc(self.k);
        let s_mid = self.s_all.drop_last();
        let wi = key_enc(self.s_new[i]);
        let wl = key_enc(self.s_new[l]);
        if i < s_mid.len() {
            assert(self.s_new[i] == self.s_all[i]);
        } else {
            assert(code_child_of(wi, enc_k));
        }
        if i != l && code_in_subtree(wi, wl) {
            if i < s_mid.len() && l < s_mid.len() {
                assert(self.s_new[i] == self.s_all[i] && self.s_new[l] == self.s_all[l]);
            } else if i >= s_mid.len() && l >= s_mid.len() {
                lemma_subtree_same_depth(wi, wl);
            } else if i >= s_mid.len() {
                // wi is a pushed child, wl an untouched entry
                assert(self.s_new[l] == self.s_all[l]);
                self.child_not_under_prefix(wi, l);
                assert(false);
            } else {
                // wl is a pushed child, wi an untouched entry sitting under it
                assert(self.s_new[i] == self.s_all[i]);
                lemma_subtree_trans(wi, wl, enc_k);
                assert(code_in_subtree(wi, enc_k));
                assert(false);
            }
        }
    }

    /// The whole step: all sweep invariants hold again afterwards.
    #[verifier::rlimit(100)]
    proof fn conclude(self)
        requires
            self.pre(),
        ensures
            sweep_inv(self.m0, self.enc_g, self.m_new, self.s_new),
            self.m_new.dom().len() <= self.m_pre.dom().len(),
            self.m_new.dom().len() < self.m_pre.dom().len() || self.s_new.len()
                < self.s_all.len(),
    {
        reveal(sweep_evolution);
        reveal(sweep_inv);
        assert forall|a: u64|
            #[trigger] self.m_new.contains_key(a) <==> (self.m0.contains_key(a) && (
            code_in_subtree(a, self.enc_g) ==> stack_live(a, self.s_new))) by {
            if self.m_new.contains_key(a) && code_in_subtree(a, self.enc_g) {
                self.cov_fwd(a);
            }
            if self.m0.contains_key(a) && (code_in_subtree(a, self.enc_g) ==> stack_live(
                a, self.s_new)) {
                self.cov_bwd(a);
            }
        };
        assert forall|i: int, l: int|
            0 <= i < self.s_new.len() && 0 <= l < self.s_new.len() implies (
            #[trigger] self.s_new[i]).wf() && code_in_subtree(key_enc(self.s_new[i]), self.enc_g)
            && !self.m_new.contains_key(key_enc(self.s_new[i])) && (self.m0.contains_key(
            key_enc(self.s_new[i])) || key_enc(self.s_new[i]) == self.enc_g) && (i != l
            ==> !code_in_subtree(key_enc(self.s_new[i]), key_enc(#[trigger] self.s_new[l])))
            by {
            self.stack_shape(i, l);
        };
        assert forall|a: u64| #[trigger] self.m_new.contains_key(a) implies
            self.m0.contains_key(a) && self.m_new[a] == self.m0[a] by {};
    }
}

/// A key of positive depth equals the child of its parent in the quadrant
/// picked by the parities of its coordinates: climbing to the parent and
/// stepping back down reproduces the key.
pub proof fn lemma_parent_child_roundtrip(k: QTreeKey, p: QTreeKey, c: QTreeKey)
    requires
        k.spec_depth() > 0,
        p.spec_depth() == k.spec_depth() - 1,
        p.spec_x() == k.spec_x() / 2,
        p.spec_y() == k.spec_y() / 2,
        c.spec_depth() == p.spec_depth() + 1,
        c.spec_x() == 2 * p.spec_x() + k.spec_x() % 2,
        c.spec_y() == 2 * p.spec_y() + k.spec_y() % 2,
    ensures
        c == k,
{
    lemma_fundamental_div_mod(k.spec_x(), 2);
    lemma_fundamental_div_mod(k.spec_y(), 2);
    QTreeKey::lemma_key_ext(c, k);
}

/// Whether the breadth-first walk from the cell that root_e encodes, down to
/// target depth td, visits the stored cell e: e lies in root_e's subtree and
/// is at most td deep, except that the walk's root itself is always visited.
pub open spec fn walk_visits<T>(m: Map<u64, QTreeNode<T>>, root_e: u64, td: int, e: u64) -> bool {
    &&& m.contains_key(e)
    &&& code_in_subtree(e, root_e)
    &&& (code_depth(e) <= td || e == root_e)
}

/// The cells the walk still has to visit.
spec fn walk_remaining<T>(
    m: Map<u64, QTreeNode<T>>,
    root_e: u64,
    td: int,
    r: Seq<QTreeKey>,
) -> nat {
    Set::new(
        |e: u64|
            walk_visits(m, root_e, td, e) && !(exists|j: int|
                0 <= j < r.len() && key_enc(#[trigger] r[j]) == e),
    ).len()
}

/// The walk loop's invariants over the visited prefix r and the queue q.
#[verifier::opaque]
spec fn walk_inv<T>(
    m: Map<u64, QTreeNode<T>>,
    root_e: u64,
    td: int,
    key: QTreeKey,
    r: Seq<QTreeKey>,
    q: Seq<QTreeKey>,
) -> bool {
    &&& forall|j: int|
        0 <= j < r.len() ==> (#[trigger] r[j]).wf() && walk_visits(m, root_e, td, key_enc(r[j]))
    &&& forall|i: int|
        0 <= i < q.len() ==> (#[trigger] q[i]).wf() && walk_visits(m, root_e, td, key_enc(q[i]))
    &&& forall|j: int, l: int|
        0 <= j < r.len() && 0 <= l < r.len() && j != l ==> key_enc(#[trigger] r[j]) != key_enc(
            #[trigger] r[l])
    &&& forall|i: int, l: int|
        0 <= i < q.len() && 0 <= l < q.len() && i != l ==> key_enc(#[trigger] q[i]) != key_enc(
            #[trigger] q[l])
    &&& forall|j: int, i: int|
        0 <= j < r.len() && 0 <= i < q.len() ==> key_enc(#[trigger] r[j]) != key_enc(
            #[trigger] q[i])
    &&& forall|e: u64|
        #[trigger] walk_visits(m, root_e, td, e) ==> (exists|j: int|
            0 <= j < r.len() && key_enc(#[trigger] r[j]) == e) || (exists|i: int|
            0 <= i < q.len() && code_in_subtree(e, key_enc(#[trigger] q[i])))
    &&& forall|j: int, l: int|
        0 <= j <= l < r.len() ==> (#[trigger] r[j]).spec_depth() <= (#[trigger] r[l]).spec_depth()
    &&& forall|i: int, l: int|
        0 <= i <= l < q.len() ==> (#[trigger] q[i]).spec_depth() <= (#[trigger] q[l]).spec_depth()
            <= q[i].spec_depth() + 1
    &&& forall|j: int, i: int|
        0 <= j < r.len() && 0 <= i < q.len() ==> (#[trigger] r[j]).spec_depth() <= (
        #[trigger] q[i]).spec_depth()
    &&& forall|i: int|
        0 <= i < q.len() ==> key_enc(#[trigger] q[i]) == root_e || exists|j: int|
            0 <= j < r.len() && key_enc(#[trigger] r[j]) == code_parent(key_enc(q[i]))
    &&& (r.len() == 0 ==> q.len() == 1 && q[0] == key)
    &&& (r.len() > 0 ==> r[0] == key)
}

/// What enqueueing the eligible children of the dequeued key does to the
/// queue: when the key is shallower than the target depth, exactly its
/// stored children enter behind the untouched prefix.
#[verifier::opaque]
spec fn walk_push_evolution<T>(
    m: Map<u64, QTreeNode<T>>,
    q_old: Seq<QTreeKey>,
    k: QTreeKey,
    td: int,
    q_new: Seq<QTreeKey>,
) -> bool {
    &&& q_old.len() <= q_new.len()
    &&& forall|i: int| 0 <= i < q_old.len() ==> #[trigger] q_new[i] == q_old[i]
    &&& forall|i: int|
        q_old.len() <= i < q_new.len() ==> (#[trigger] q_new[i]).wf() && code_child_of(
            key_enc(q_new[i]), key_enc(k)) && m.contains_key(key_enc(q_new[i]))
            && (q_new[i]).spec_depth() == k.spec_depth() + 1
    &&& forall|a: u64|
        code_child_of(a, key_enc(k)) && #[trigger] m.contains_key(a) && k.spec_depth() < td
            ==> exists|i: int|
                q_old.len() <= i < q_new.len() && key_enc(#[trigger] q_new[i]) == a
    &&& (k.spec_depth() >= td ==> q_new == q_old)
    &&& forall|i: int, l: int|
        q_old.len() <= i < q_new.len() && q_old.len() <= l < q_new.len() && i != l
            ==> key_enc(#[trigger] q_new[i]) != key_enc(#[trigger] q_new[l])
}

/// When the walk's root is absent, the walk owes no visits at all.
proof fn lemma_walk_absent<T>(m: Map<u64, QTreeNode<T>>, root_e: u64, td: int)
    requires
        tree_map_wf(m),
        code_wf(root_e),
        !m.contains_key(root_e),
    ensures
        forall|e: u64| !walk_visits(m, root_e, td, e),
{
    assert forall|e: u64| !walk_visits(m, root_e, td, e) by {
        if code_in_subtree(e, root_e) && m.contains_key(e) {
            lemma_tree_ancestors_present(m, e, code_depth(e) - code_depth(root_e));
        }
    };
}

/// The walk invariants hold at the start: nothing visited, the root queued.
proof fn lemma_walk_init<T>(m: Map<u64, QTreeNode<T>>, td: int, key: QTreeKey)
    requires
        tree_map_wf(m),
        key.wf(),
        code_wf(key_enc(key)),
        m.contains_key(key_enc(key)),
    ensures
        walk_inv(m, key_enc(key), td, key, Seq::<QTreeKey>::empty(), seq![key]),
{
    reveal(walk_inv);
    let root_e = key_enc(key);
    lemma_subtree_refl(root_e);
    let q = seq![key];
    assert(q[0] == key && q.len() == 1);
    assert forall|e: u64| #[trigger] walk_visits(m, root_e, td, e) implies exists|i: int|
        0 <= i < q.len() && code_in_subtree(e, key_enc(#[trigger] q[i])) by {
        assert(code_in_subtree(e, key_enc(q[0])));
    };
}

/// With the queue drained, the visited prefix is exactly what the walk owed.
proof fn lemma_walk_finish<T>(
    m: Map<u64, QTreeNode<T>>,
    root_e: u64,
    td: int,
    key: QTreeKey,
    r: Seq<QTreeKey>,
)
    requires
        walk_inv(m, root_e, td, key, r, Seq::<QTreeKey>::empty()),
        m.contains_key(root_e),
        root_e == key_enc(key),
    ensures
        r.len() > 0 && r[0] == key,
        forall|j: int, l: int|
            0 <= j < r.len() && 0 <= l < r.len() && j != l ==> key_enc(#[trigger] r[j])
                != key_enc(#[trigger] r[l]),
        forall|j: int, l: int|
            0 <= j <= l < r.len() ==> (#[trigger] r[j]).spec_depth() <= (
            #[trigger] r[l]).spec_depth(),
        forall|e: u64|
            #[trigger] walk_visits(m, root_e, td, e) <==> exists|j: int|
                0 <= j < r.len() && key_enc(#[trigger] r[j]) == e,
    {
    reveal(walk_inv);
    lemma_subtree_refl(root_e);
    assert(walk_visits(m, root_e, td, root_e));
    assert forall|e: u64|
        #[trigger] walk_visits(m, root_e, td, e) implies exists|j: int|
            0 <= j < r.len() && key_enc(#[trigger] r[j]) == e by {};
}

/// Ghost context of one walk step: the dequeued key is appended to the
/// visited prefix and its eligible children join the queue.
struct WalkStep<T> {
    m: Map<u64, QTreeNode<T>>,
    root_e: u64,
    td: int,
    key: QTreeKey,
    r_pre: Seq<QTreeKey>,
    q_pre: Seq<QTreeKey>,
    k: QTreeKey,
    r_new: Seq<QTreeKey>,
    q_new: Seq<QTreeKey>,
}

impl<T> WalkStep<T> {
    spec fn pre(self) -> bool {
        &&& tree_map_wf(self.m)
        &&& code_wf(self.root_e)
        &&& self.m.dom().finite()
        &&& self.m.contains_key(self.root_e)
        &&& walk_inv(self.m, self.root_e, self.td, self.key, self.r_pre, self.q_pre)
        &&& self.q_pre.len() > 0
        &&& self.k == self.q_pre[0]
        &&& self.k.wf()
        &&& self.r_new == self.r_pre.push(self.k)
        &&& walk_push_evolution(
            self.m,
            self.q_pre.subrange(1, self.q_pre.len() as int),
            self.k,
            self.td,
            self.q_new,
        )
    }

    /// Fresh children collide with nothing that was visited or queued.
    #[verifier::rlimit(100)]
    proof fn fresh_children(self)
        requires
            self.pre(),
        ensures
            forall|j: int|
                0 <= j < self.r_new.len() ==> (#[trigger] self.r_new[j]).spec_depth()
                    <= self.k.spec_depth(),
            forall|a: u64| #[trigger]
                code_child_of(a, key_enc(self.k)) ==> code_depth(a) == self.k.spec_depth() + 1
                    && code_in_subtree(a, key_enc(self.k)) && a != self.root_e,
            forall|j: int|
                0 <= j < self.r_new.len() ==> code_depth(key_enc(#[trigger] self.r_new[j]))
                    == (self.r_new[j]).spec_depth(),
            forall|i: int|
                0 <= i < self.q_pre.len() ==> code_depth(key_enc(#[trigger] self.q_pre[i]))
                    == (self.q_pre[i]).spec_depth(),
            code_depth(key_enc(self.k)) == self.k.spec_depth(),
            code_depth(self.root_e) <= self.k.spec_depth(),
            walk_visits(self.m, self.root_e, self.td, key_enc(self.k)),
    {
        reveal(walk_inv);
        lemma_key_decode(self.k);
        assert forall|j: int| 0 <= j < self.r_new.len() implies (
        #[trigger] self.r_new[j]).spec_depth() <= self.k.spec_depth() && code_depth(
            key_enc(self.r_new[j])) == (self.r_new[j]).spec_depth() by {
            lemma_key_decode(self.r_new[j]);
        };
        assert forall|i: int| 0 <= i < self.q_pre.len() implies code_depth(
            key_enc(#[trigger] self.q_pre[i])) == (self.q_pre[i]).spec_depth() by {
            lemma_key_decode(self.q_pre[i]);
        };
        assert(walk_visits(self.m, self.root_e, self.td, key_enc(self.k)));
        assert(code_depth(self.root_e) <= self.k.spec_depth()) by {
            lemma_anc_decode(key_enc(self.k),
                code_depth(key_enc(self.k)) - code_depth(self.root_e));
        };
        assert forall|a: u64| #[trigger] code_child_of(a, key_enc(self.k)) implies code_depth(
            a) == self.k.spec_depth() + 1 && code_in_subtree(a, key_enc(self.k)) && a
            != self.root_e by {
            assert(code_anc(a, 1) == key_enc(self.k));
            assert(code_in_subtree(a, key_enc(self.k)));
        };
    }

    /// The coverage clause of the walk invariant, extracted for one cell.
    proof fn inv_cover_clause(self, e: u64)
        requires
            self.pre(),
            walk_visits(self.m, self.root_e, self.td, e),
        ensures
            (exists|j: int|
                0 <= j < self.r_pre.len() && key_enc(#[trigger] self.r_pre[j]) == e) || (exists|
            i: int|
                0 <= i < self.q_pre.len() && code_in_subtree(e, key_enc(
                    #[trigger] self.q_pre[i]))),
    {
        reveal(walk_inv);
    }

    /// Everything the walk owes and has not visited stays covered.
    #[verifier::rlimit(100)]
    proof fn cover(self, e: u64)
        requires
            self.pre(),
            walk_visits(self.m, self.root_e, self.td, e),
        ensures
            (exists|j: int|
                0 <= j < self.r_new.len() && key_enc(#[trigger] self.r_new[j]) == e) || (exists|
            i: int|
                0 <= i < self.q_new.len() && code_in_subtree(e, key_enc(
                    #[trigger] self.q_new[i]))),
    {
        reveal(walk_push_evolution);
        self.fresh_children();
        self.inv_cover_clause(e);
        let enc_k = key_enc(self.k);
        let q_mid = self.q_pre.subrange(1, self.q_pre.len() as int);
        if exists|j: int| 0 <= j < self.r_pre.len() && key_enc(#[trigger] self.r_pre[j]) == e {
            let j0 = choose|j: int|
                0 <= j < self.r_pre.len() && key_enc(#[trigger] self.r_pre[j]) == e;
            assert(key_enc(self.r_new[j0]) == e);
        } else {
            let i0 = choose|i: int|
                0 <= i < self.q_pre.len() && code_in_subtree(e, key_enc(
                    #[trigger] self.q_pre[i]));
            if i0 > 0 {
                assert(self.q_new[i0 - 1] == q_mid[i0 - 1] && q_mid[i0 - 1] == self.q_pre[i0]);
                assert(code_in_subtree(e, key_enc(self.q_new[i0 - 1])));
            } else {
                // covered only through the dequeued key itself
                assert(code_in_subtree(e, enc_k));
                if e == enc_k {
                    assert(key_enc(self.r_new[self.r_new.len() - 1]) == e);
                } else {
                    lemma_through_child_present(self.m, enc_k, e);
                    let cstar = code_anc(e, code_depth(e) - code_depth(enc_k) - 1);
                    assert(code_child_of(cstar, enc_k) && self.m.contains_key(cstar)
                        && code_in_subtree(e, cstar));
                    // e is deeper than the dequeued key and obeys the depth
                    // bound, so the key is above the target depth
                    assert(self.k.spec_depth() < self.td) by {
                        if e == self.root_e {
                            lemma_subtree_same_depth(e, enc_k);
                        }
                    };
                    let i1 = choose|i: int|
                        q_mid.len() <= i < self.q_new.len() && key_enc(
                        #[trigger] self.q_new[i]) == cstar;
                    assert(code_in_subtree(e, key_enc(self.q_new[i1])));
                }
            }
        }
    }

    /// The step makes progress: the dequeued cell leaves the remaining set.
    #[verifier::rlimit(100)]
    proof fn progress(self)
        requires
            self.pre(),
        ensures
            walk_remaining(self.m, self.root_e, self.td, self.r_new) < walk_remaining(
                self.m, self.root_e, self.td, self.r_pre),
    {
        reveal(walk_inv);
        let rem_pre = Set::new(
            |e: u64|
                walk_visits(self.m, self.root_e, self.td, e) && !(exists|j: int|
                    0 <= j < self.r_pre.len() && key_enc(#[trigger] self.r_pre[j]) == e),
        );
        let rem_new = Set::new(
            |e: u64|
                walk_visits(self.m, self.root_e, self.td, e) && !(exists|j: int|
                    0 <= j < self.r_new.len() && key_enc(#[trigger] self.r_new[j]) == e),
        );
        let enc_k = key_enc(self.k);
        assert(rem_pre.subset_of(Set::new(|e: u64| self.m.contains_key(e))));
        assert(Set::new(|e: u64| self.m.contains_key(e)) =~= self.m.dom());
        vstd::set_lib::lemma_len_subset(rem_pre, self.m.dom());
        assert(forall|j: int| 0 <= j < self.r_pre.len() ==> #[trigger] self.r_new[j]
            == self.r_pre[j]);
        assert(key_enc(self.r_new[self.r_new.len() - 1]) == enc_k);
        assert forall|e: u64| rem_new.contains(e) implies rem_pre.remove(enc_k).contains(
            e) by {
            if exists|j: int| 0 <= j < self.r_pre.len() && key_enc(#[trigger] self.r_pre[j])
                == e {
                let j0 = choose|j: int|
                    0 <= j < self.r_pre.len() && key_enc(#[trigger] self.r_pre[j]) == e;
                assert(key_enc(self.r_new[j0]) == e);
                assert(false);
            }
            if e == enc_k {
                assert(false);
            }
        };
        assert(rem_pre.contains(enc_k)) by {
            assert(walk_visits(self.m, self.root_e, self.td, enc_k));
        };
        assert(rem_new.subset_of(rem_pre.remove(enc_k)));
        vstd::set_lib::lemma_len_subset(rem_new, rem_pre.remove(enc_k));
        assert(rem_pre.remove(enc_k).len() < rem_pre.len());
    }

    /// Freshly pushed children collide with nothing visited or queued.
    #[verifier::rlimit(100)]
    proof fn fresh_disjoint(self)
        requires
            self.pre(),
        ensures
            forall|i: int|
                self.q_pre.len() - 1 <= i < self.q_new.len() ==> walk_visits(
                    self.m, self.root_e, self.td, key_enc(#[trigger] self.q_new[i])) && (forall|
                j: int|
                    0 <= j < self.r_new.len() ==> key_enc(#[trigger] self.r_new[j]) != key_enc(
                        self.q_new[i])) && (forall|l: int|
                    0 <= l < self.q_pre.len() - 1 ==> key_enc(#[trigger] self.q_new[l])
                        != key_enc(self.q_new[i])),
    {
        reveal(walk_inv);
        reveal(walk_push_evolution);
        self.fresh_children();
        let enc_k = key_enc(self.k);
        let dk = self.k.spec_depth();
        let q_mid = self.q_pre.subrange(1, self.q_pre.len() as int);
        assert forall|i: int|
            q_mid.len() <= i < self.q_new.len() implies walk_visits(
            self.m, self.root_e, self.td, key_enc(#[trigger] self.q_new[i])) && (forall|j: int|
            0 <= j < self.r_new.len() ==> key_enc(#[trigger] self.r_new[j]) != key_enc(
                self.q_new[i])) && (forall|l: int|
            0 <= l < q_mid.len() ==> key_enc(#[trigger] self.q_new[l]) != key_enc(
                self.q_new[i])) by {
            let a = key_enc(self.q_new[i]);
            assert(code_child_of(a, enc_k));
            assert(code_in_subtree(a, enc_k));
            lemma_subtree_trans(a, enc_k, self.root_e);
            assert(self.k.spec_depth() < self.td) by {
                if self.q_new != q_mid {
                    assert(self.q_new.len() > q_mid.len());
                }
            };
            assert(walk_visits(self.m, self.root_e, self.td, a));
            assert forall|j: int| 0 <= j < self.r_new.len() implies key_enc(
                #[trigger] self.r_new[j]) != a by {
                assert((self.r_new[j]).spec_depth() <= dk);
                assert(code_depth(key_enc(self.r_new[j])) <= dk < code_depth(a));
            };
            assert forall|l: int| 0 <= l < q_mid.len() implies key_enc(
                #[trigger] self.q_new[l]) != a by {
                if key_enc(q_mid[l]) == a {
                    // its parent is the dequeued key, which is still queued,
                    // so it cannot already have been visited
                    assert(q_mid[l] == self.q_pre[l + 1]);
                    assert(key_enc(self.q_pre[l + 1]) == a && a != self.root_e);
                    let j1 = choose|j: int|
                        0 <= j < self.r_pre.len() && key_enc(#[trigger] self.r_pre[j])
                            == code_parent(key_enc(self.q_pre[l + 1]));
                    assert(key_enc(self.r_pre[j1]) == enc_k);
                    assert(key_enc(self.q_pre[0]) == enc_k);
                    assert(false);
                }
                assert(self.q_new[l] == q_mid[l]);
            };
        };
    }

    /// The untouched queue entries keep their visited parents.
    #[verifier::rlimit(100)]
    proof fn parents_ok(self)
        requires
            self.pre(),
        ensures
            forall|i: int|
                0 <= i < self.q_pre.len() - 1 && key_enc(#[trigger] self.q_new[i])
                    != self.root_e ==> exists|j: int|
                    0 <= j < self.r_new.len() && key_enc(#[trigger] self.r_new[j])
                        == code_parent(key_enc(self.q_new[i])),
    {
        reveal(walk_inv);
        reveal(walk_push_evolution);
        let q_mid = self.q_pre.subrange(1, self.q_pre.len() as int);
        assert forall|i: int|
            0 <= i < q_mid.len() && key_enc(#[trigger] self.q_new[i]) != self.root_e
            implies exists|j: int|
                0 <= j < self.r_new.len() && key_enc(#[trigger] self.r_new[j]) == code_parent(
                key_enc(self.q_new[i])) by {
            assert(self.q_new[i] == q_mid[i] && q_mid[i] == self.q_pre[i + 1]);
            let j1 = choose|j: int|
                0 <= j < self.r_pre.len() && key_enc(#[trigger] self.r_pre[j]) == code_parent(
                    key_enc(self.q_pre[i + 1]));
            assert(key_enc(self.r_new[j1]) == code_parent(key_enc(self.q_new[i])));
        };
    }

    /// The whole step: the invariants hold again afterwards.
    #[verifier::rlimit(100)]
    #[verifier::spinoff_prover]
    proof fn conclude(self)
        requires
            self.pre(),
        ensures
            walk_inv(self.m, self.root_e, self.td, self.key, self.r_new, self.q_new),
            walk_remaining(self.m, self.root_e, self.td, self.r_new) < walk_remaining(
                self.m, self.root_e, self.td, self.r_pre),
    {
        reveal(walk_inv);
        reveal(walk_push_evolution);
        self.fresh_children();
        self.progress();
        self.fresh_disjoint();
        self.parents_ok();
        let enc_k = key_enc(self.k);
        let dk = self.k.spec_depth();
        let q_mid = self.q_pre.subrange(1, self.q_pre.len() as int);
        // coverage
        assert forall|e: u64| #[trigger] walk_visits(self.m, self.root_e, self.td, e) implies (
        exists|j: int| 0 <= j < self.r_new.len() && key_enc(#[trigger] self.r_new[j]) == e) || (
        exists|i: int|
            0 <= i < self.q_new.len() && code_in_subtree(e, key_enc(#[trigger] self.q_new[i])))
            by {
            self.cover(e);
        };
        // the dequeued key was not visited yet
        assert forall|j: int| 0 <= j < self.r_pre.len() implies key_enc(
            #[trigger] self.r_pre[j]) != enc_k by {
            assert(key_enc(self.q_pre[0]) == enc_k);
        };
        // depth windows
        assert forall|i: int| 0 <= i < q_mid.len() implies dk <= (
        #[trigger] q_mid[i]).spec_depth() <= dk + 1 && self.q_new[i] == q_mid[i] && q_mid[i]
            == self.q_pre[i + 1] by {};
        assert forall|i: int|
            q_mid.len() <= i < self.q_new.len() implies (#[trigger] self.q_new[i]).spec_depth()
            == dk + 1 by {};
        // the fresh tail keeps the parent-visited property
        assert forall|i: int|
            q_mid.len() <= i < self.q_new.len() implies code_parent(
            key_enc(#[trigger] self.q_new[i])) == key_enc(
            self.r_new[self.r_new.len() - 1]) by {};
        assert(walk_inv(self.m, self.root_e, self.td, self.key, self.r_new, self.q_new));
    }
}

/// A node of the sparse quadtree: a payload, or nothing for an auto-created/// A node of the sparse quadtree: a payload, or nothing for an auto-created
/// ancestor placeholder.
pub struct QTreeNode<T> {
    pub data: Option<T>,
}

impl<T> QTreeNode<T> {
    /// A node holding a payload.
    pub fn new(data: T) -> (r: Self)
        ensures
            r.data == Some(data),
    {
        Self { data: Some(data) }
    }
}

/// Read access to a quadtree.
pub trait ReadonlyQTree<T> {
    fn get(&self, key: QTreeKey) -> Option<&QTreeNode<T>>;

    fn get_mut(&mut self, key: QTreeKey) -> Option<&mut QTreeNode<T>>;
}

/// Sparse quadtree of nodes keyed by packed tile keys.
///
/// Its invariant `wf` is kept by every operation: whenever a node is stored,
/// all ancestors of its cell are stored as well, possibly as empty
/// placeholders.
pub struct QTree<T> {
    data: HashMap<u64, QTreeNode<T>>,
}

impl<T> View for QTree<T> {
    type V = Map<u64, QTreeNode<T>>;

    closed spec fn view(&self) -> Map<u64, QTreeNode<T>> {
        self.data@
    }
}

impl<T> QTree<T> {
    /// The tree invariant: stored encodings are well formed and closed under
    /// taking ancestors.
    pub open spec fn wf(self) -> bool {
        tree_map_wf(self@)
    }

    /// An empty tree.
    pub fn new() -> (r: Self)
        ensures
            r.wf(),
            r@ == Map::<u64, QTreeNode<T>>::empty(),
    {
        Self { data: HashMap::new() }
    }

    /// The number of stored nodes, placeholders included.
    pub fn size(&self) -> (r: usize)
        ensures
            r == self@.dom().len(),
    {
        self.data.len()
    }

    /// Looks up the node stored for key, if any.
    pub fn get(&self, key: QTreeKey) -> (r: Option<&QTreeNode<T>>)
        ensures
            r is Some <==> self@.contains_key(key_enc(key)),
            r matches Some(n) ==> *n == self@[key_enc(key)],
    {
        self.data.get(&key.inner_key())
    }

    /// Looks up the node stored for key for mutation, if any. The shape of
    /// the tree is unchanged; only the payload behind the reference moves.
    pub fn get_mut(&mut self, key: QTreeKey) -> (r: Option<&mut QTreeNode<T>>)
        requires
            old(self).wf(),
        ensures
            final(self).wf(),
            r is Some <==> old(self)@.contains_key(key_enc(key)),
            r is None ==> final(self)@ == old(self)@,
            r matches Some(n) ==> *n == old(self)@[key_enc(key)]
                && final(self)@ == old(self)@.insert(key_enc(key), *final(n)),
    {
        let enc = key.inner_key();
        if self.data.contains_key(&enc) {
            Some(self.data.entry(enc).or_insert(QTreeNode { data: None }))
        } else {
            None
        }
    }

    /// Inserts a node for key, creating missing ancestor placeholders bottom
    /// up until an existing ancestor is found. Returns the node previously
    /// stored for key, if any.
    #[verifier::rlimit(100)]
    pub fn insert(&mut self, key: QTreeKey, data: T) -> (r: Option<QTreeNode<T>>)
        requires
            old(self).wf(),
        ensures
            final(self).wf(),
            final(self)@.dom() == old(self)@.dom().union(code_ancestors(key_enc(key))).insert(
                key_enc(key)),
            final(self)@[key_enc(key)] == (QTreeNode { data: Some(data) }),
            forall|a: u64|
                a != key_enc(key) && #[trigger] old(self)@.contains_key(a)
                    ==> final(self)@.contains_key(a) && final(self)@[a] == old(self)@[a],
            forall|a: u64|
                a != key_enc(key) && !old(self)@.contains_key(a) && #[trigger] final(
                    self)@.contains_key(a)
                    ==> final(self)@[a] == (QTreeNode { data: Option::<T>::None }),
            r == (if old(self)@.contains_key(key_enc(key)) {
                Some(old(self)@[key_enc(key)])
            } else {
                Option::<QTreeNode<T>>::None
            }),
    {
        proof {
            use_type_invariant(key);
            lemma_key_decode(key);
        }
        let ghost m0 = self@;
        let ghost enc_g = key_enc(key);
        let ghost d = key.spec_depth();
        let enc = key.inner_key();
        proof {
            lemma2_to64();
        }
        let mut p_opt = key.parent();
        let ghost mut j: int = 1;
        loop
            invariant
                tree_map_wf(m0),
                code_wf(enc_g),
                code_depth(enc_g) == d,
                0 <= d <= 28,
                1 <= j <= d + 1,
                p_opt matches Some(p) ==> j <= d && key_enc(p) == code_anc(enc_g, j),
                p_opt is None ==> j == d + 1,
                forall|i: int|
                    1 <= i < j
                        ==> !m0.contains_key(#[trigger] code_anc(enc_g, i))
                            && self@.contains_key(code_anc(enc_g, i)),
                forall|a: u64| #[trigger]
                    m0.contains_key(a) ==> self@.contains_key(a) && self@[a] == m0[a],
                forall|a: u64| #[trigger]
                    self@.contains_key(a)
                        ==> m0.contains_key(a)
                            || (exists|i: int| 1 <= i < j && a == #[trigger] code_anc(enc_g, i)),
                forall|a: u64| #[trigger]
                    self@.contains_key(a) && !m0.contains_key(a)
                        ==> self@[a] == (QTreeNode { data: Option::<T>::None }),
            ensures
                forall|i: int|
                    1 <= i <= d ==> self@.contains_key(#[trigger] code_anc(enc_g, i)),
                forall|a: u64| #[trigger]
                    m0.contains_key(a) ==> self@.contains_key(a) && self@[a] == m0[a],
                forall|a: u64| #[trigger]
                    self@.contains_key(a)
                        ==> m0.contains_key(a)
                            || (exists|i: int| 1 <= i <= d && a == #[trigger] code_anc(enc_g, i)),
                forall|a: u64| #[trigger]
                    self@.contains_key(a) && !m0.contains_key(a)
                        ==> self@[a] == (QTreeNode { data: Option::<T>::None }),
            decreases d + 1 - j,
        {
            match p_opt {
                None => {
                    proof {
                        assert forall|i: int| 1 <= i <= d implies self@.contains_key(
                            #[trigger] code_anc(enc_g, i)) by {};
                    }
                    break;
                },
                Some(parent) => {
                    let penc = parent.inner_key();
                    proof {
                        use_type_invariant(parent);
                        lemma_key_decode(parent);
                        lemma_anc_decode(enc_g, j);
                    }
                    if self.data.get(&penc).is_none() {
                        self.data.insert(penc, QTreeNode { data: None });
                        proof {
                            // distinct ancestor levels have distinct encodings
                            assert forall|i: int| 1 <= i < j + 1 implies !m0.contains_key(
                                #[trigger] code_anc(enc_g, i)) && self@.contains_key(
                                code_anc(enc_g, i)) by {
                                lemma_anc_decode(enc_g, i);
                            };
                        }
                        let next = parent.parent();
                        proof {
                            if let Some(pp) = next {
                                lemma_pow2_pos(j as nat);
                                lemma_pow2_unfold((j + 1) as nat);
                                lemma_div_denominator(code_x(enc_g), pow2(j as nat) as int, 2);
                                lemma_div_denominator(code_y(enc_g), pow2(j as nat) as int, 2);
                                assert(key_enc(pp) == code_anc(enc_g, j + 1));
                            }
                            j = j + 1;
                        }
                        p_opt = next;
                    } else {
                        proof {
                            // the found ancestor was already stored before the
                            // call, so all levels above it are stored too
                            assert(self@.contains_key(code_anc(enc_g, j)));
                            if !m0.contains_key(code_anc(enc_g, j)) {
                                let i0 = choose|i: int|
                                    1 <= i < j && code_anc(enc_g, j) == code_anc(enc_g, i);
                                lemma_anc_decode(enc_g, i0);
                                lemma_anc_decode(enc_g, j);
                                assert(false);
                            }
                            assert forall|i: int| 1 <= i <= d implies self@.contains_key(
                                #[trigger] code_anc(enc_g, i)) by {
                                if i >= j {
                                    lemma_anc_decode(enc_g, j);
                                    lemma_anc_compose(enc_g, j, i - j);
                                    lemma_tree_ancestors_present(
                                        m0, code_anc(enc_g, j), i - j);
                                }
                            };
                        }
                        break;
                    }
                },
            }
        }
        let ghost m1 = self@;
        let r = self.data.insert(enc, QTreeNode { data: Some(data) });
        proof {
            // the key itself is no ancestor encoding: its depth is deeper
            assert forall|i: int| 1 <= i <= d implies enc_g != #[trigger] code_anc(enc_g, i) by {
                lemma_anc_decode(enc_g, i);
            };
            if m1.contains_key(enc_g) && !m0.contains_key(enc_g) {
                let i0 = choose|i: int| 1 <= i <= d && enc_g == #[trigger] code_anc(enc_g, i);
                assert(false);
            }
            assert forall|a: u64|
                self@.dom().contains(a) <==> (m0.dom().contains(a)
                    || code_ancestors(enc_g).contains(a) || a == enc_g) by {
                if self@.dom().contains(a) && a != enc_g && !m0.contains_key(a) {
                    assert(m1.contains_key(a));
                    let i0 = choose|i: int| 1 <= i <= d && a == #[trigger] code_anc(enc_g, i);
                    assert(1 <= i0 <= code_depth(enc_g) && a == code_anc(enc_g, i0));
                    assert(code_ancestors(enc_g).contains(a));
                }
                if code_ancestors(enc_g).contains(a) {
                    let j0 = choose|jj: int|
                        1 <= jj <= code_depth(enc_g) && a == #[trigger] code_anc(enc_g, jj);
                    assert(m1.contains_key(code_anc(enc_g, j0)));
                }
                if m0.contains_key(a) {
                    assert(m1.contains_key(a));
                }
            };
            assert(self@.dom() =~= m0.dom().union(code_ancestors(enc_g)).insert(enc_g));
            assert forall|a: u64| #[trigger] self@.contains_key(a) implies code_wf(a)
                && (code_depth(a) > 0 ==> self@.contains_key(code_parent(a))) by {
                if a == enc_g {
                    if code_depth(a) > 0 {
                        assert(m1.contains_key(code_anc(enc_g, 1)));
                    }
                } else if m0.contains_key(a) {
                    assert(code_wf(a));
                    if code_depth(a) > 0 {
                        assert(m0.contains_key(code_parent(a)));
                        assert(m1.contains_key(code_parent(a)));
                    }
                } else {
                    assert(m1.contains_key(a));
                    let i0 = choose|i: int| 1 <= i <= d && a == #[trigger] code_anc(enc_g, i);
                    lemma_anc_decode(enc_g, i0);
                    if code_depth(a) > 0 {
                        lemma_anc_step(enc_g, i0);
                        assert(m1.contains_key(code_anc(enc_g, i0 + 1)));
                    }
                }
            };
        }
        r
    }

    /// Removes the four child cells of a popped key from the map, pushing
    /// each one that was stored for its own subtree sweep.
    #[verifier::rlimit(100)]
    fn sweep_children(&mut self, stack: &mut Vec<QTreeKey>, k: QTreeKey)
        ensures
            sweep_evolution(old(self)@, old(stack)@, k, final(self)@, final(stack)@),
    {
        proof {
            reveal(sweep_evolution);
            use_type_invariant(k);
            lemma_key_decode(k);
        }
        let ghost m_in = self@;
        let ghost s_in = stack@;
        let ghost enc_k = key_enc(k);
        let c1 = k.child_lt();
        let c2 = k.child_rt();
        let c3 = k.child_lb();
        let c4 = k.child_rb();
        proof {
            if k.spec_depth() < 28 {
                lemma_pow2_unfold((k.spec_depth() + 1) as nat);
                if let Some(c) = c1 {
                    assert(c.wf());
                    lemma_child_of_key(k, c);
                }
                if let Some(c) = c2 {
                    assert(c.wf());
                    lemma_child_of_key(k, c);
                }
                if let Some(c) = c3 {
                    assert(c.wf());
                    lemma_child_of_key(k, c);
                }
                if let Some(c) = c4 {
                    assert(c.wf());
                    lemma_child_of_key(k, c);
                }
            }
            // every child encoding of k is one of the four candidates
            assert forall|a: u64| code_child_of(a, enc_k) implies k.spec_depth() < 28 && (a
                == key_enc(c1->Some_0) || a == key_enc(c2->Some_0) || a == key_enc(c3->Some_0)
                || a == key_enc(c4->Some_0)) by {
                lemma_child_coverage(k, a);
            };
        }
        let ghost mut pos1: int = -1;
        let ghost mut pos2: int = -1;
        let ghost mut pos3: int = -1;
        let ghost mut pos4: int = -1;
        if let Some(c) = c1 {
            if self.data.remove(&c.inner_key()).is_some() {
                stack.push(c);
                proof {
                    pos1 = stack@.len() - 1;
                }
            }
        }
        if let Some(c) = c2 {
            if self.data.remove(&c.inner_key()).is_some() {
                stack.push(c);
                proof {
                    pos2 = stack@.len() - 1;
                }
            }
        }
        if let Some(c) = c3 {
            if self.data.remove(&c.inner_key()).is_some() {
                stack.push(c);
                proof {
                    pos3 = stack@.len() - 1;
                }
            }
        }
        if let Some(c) = c4 {
            if self.data.remove(&c.inner_key()).is_some() {
                stack.push(c);
                proof {
                    pos4 = stack@.len() - 1;
                }
            }
        }
        proof {
            assert forall|a: u64|
                code_child_of(a, enc_k) && m_in.contains_key(a) implies exists|i: int|
                    s_in.len() <= i < stack@.len() && key_enc(#[trigger] stack@[i]) == a by {
                if c1 matches Some(q) && a == key_enc(q) {
                    assert(s_in.len() <= pos1 < stack@.len() && key_enc(stack@[pos1]) == a);
                }
                if c2 matches Some(q) && a == key_enc(q) {
                    assert(s_in.len() <= pos2 < stack@.len() && key_enc(stack@[pos2]) == a);
                }
                if c3 matches Some(q) && a == key_enc(q) {
                    assert(s_in.len() <= pos3 < stack@.len() && key_enc(stack@[pos3]) == a);
                }
                if c4 matches Some(q) && a == key_enc(q) {
                    assert(s_in.len() <= pos4 < stack@.len() && key_enc(stack@[pos4]) == a);
                }
            };
            vstd::set_lib::lemma_len_subset(self@.dom(), m_in.dom());
            if stack@.len() > s_in.len() {
                let a0 = key_enc(stack@[s_in.len() as int]);
                assert(m_in.dom().contains(a0) && !self@.dom().contains(a0));
                vstd::set_lib::lemma_len_subset(self@.dom(), m_in.dom().remove(a0));
            }
            if stack@.len() == s_in.len() {
                assert(self@ =~= m_in);
            }
        }
    }

    /// Removes the node for key together with every stored descendant,
    /// leaving all other subtrees untouched.
    #[verifier::rlimit(100)]
    pub fn remove(&mut self, key: QTreeKey)
        requires
            old(self).wf(),
        ensures
            final(self).wf(),
            final(self)@.dom() == old(self)@.dom().difference(code_subtree(key_enc(key))),
            forall|a: u64| #[trigger]
                final(self)@.contains_key(a) ==> final(self)@[a] == old(self)@[a],
    {
        proof {
            use_type_invariant(key);
            lemma_key_decode(key);
        }
        let ghost m0 = self@;
        let ghost enc_g = key_enc(key);
        let mut stack: Vec<QTreeKey> = Vec::new();
        stack.push(key);
        self.data.remove(&key.inner_key());
        proof {
            reveal(stack_live);
            reveal(sweep_inv);
            lemma_subtree_refl(enc_g);
            assert forall|a: u64|
                #[trigger] self@.contains_key(a) <==> (m0.contains_key(a) && (code_in_subtree(
                    a, enc_g) ==> stack_live(a, stack@))) by {
                if a != enc_g && code_in_subtree(a, enc_g) {
                    assert(stack@[0] == key);
                    assert(a != key_enc(stack@[0]) && code_in_subtree(a, key_enc(stack@[0])));
                    assert(stack_live(a, stack@));
                }
                if a == enc_g && stack_live(a, stack@) {
                    let i = choose|i: int|
                        0 <= i < stack@.len() && a != key_enc(#[trigger] stack@[i])
                            && code_in_subtree(a, key_enc(stack@[i]));
                    assert(i == 0);
                    assert(false);
                }
            };
            assert(sweep_inv(m0, enc_g, self@, stack@));
        }
        loop
            invariant
                tree_map_wf(m0),
                code_wf(enc_g),
                sweep_inv(m0, enc_g, self@, stack@),
            ensures
                stack@.len() == 0,
                sweep_inv(m0, enc_g, self@, stack@),
            decreases self@.dom().len(), stack@.len(),
        {
            let ghost m_pre = self@;
            let ghost s_all = stack@;
            let popped = stack.pop();
            match popped {
                None => {
                    break;
                },
                Some(k) => {
                    proof {
                        use_type_invariant(k);
                    }
                    self.sweep_children(&mut stack, k);
                    proof {
                        let step = (SweepStep {
                            m0,
                            enc_g,
                            m_pre,
                            s_all,
                            k,
                            m_new: self@,
                            s_new: stack@,
                        });
                        step.conclude();
                    }
                },
            }
        }
        proof {
            reveal(sweep_inv);
            reveal(stack_live);
            assert forall|a: u64| !stack_live(a, stack@) by {};
            assert(self@.dom() =~= m0.dom().difference(code_subtree(enc_g)));
            assert forall|a: u64| #[trigger] self@.contains_key(a) implies code_wf(a) && (
            code_depth(a) > 0 ==> self@.contains_key(code_parent(a))) by {
                if code_depth(a) > 0 {
                    assert(m0.contains_key(a));
                    lemma_anc_decode(a, 1);
                    if code_in_subtree(code_parent(a), enc_g) {
                        lemma_anc_zero(a);
                        lemma_subtree_trans(a, code_parent(a), enc_g);
                        assert(false);
                    }
                }
            };
        }
    }

    /// Enqueues the stored children of the dequeued key, when the walk has
    /// not yet reached its target depth.
    fn enqueue_children(
        &self,
        queue: &mut std::collections::VecDeque<QTreeKey>,
        k: QTreeKey,
        target_depth: u8,
    )
        ensures
            walk_push_evolution(self@, old(queue)@, k, target_depth as int, final(queue)@),
    {
        proof {
            reveal(walk_push_evolution);
            use_type_invariant(k);
            lemma_key_decode(k);
        }
        let ghost q_in = queue@;
        let ghost enc_k = key_enc(k);
        if k.depth() >= target_depth {
            return ;
        }
        let c1 = k.child_lt();
        let c2 = k.child_rt();
        let c3 = k.child_lb();
        let c4 = k.child_rb();
        proof {
            if k.spec_depth() < 28 {
                lemma_pow2_unfold((k.spec_depth() + 1) as nat);
                if let Some(c) = c1 {
                    assert(c.wf());
                    lemma_child_of_key(k, c);
                }
                if let Some(c) = c2 {
                    assert(c.wf());
                    lemma_child_of_key(k, c);
                }
                if let Some(c) = c3 {
                    assert(c.wf());
                    lemma_child_of_key(k, c);
                }
                if let Some(c) = c4 {
                    assert(c.wf());
                    lemma_child_of_key(k, c);
                }
            }
            assert forall|a: u64| code_child_of(a, enc_k) implies k.spec_depth() < 28 && (a
                == key_enc(c1->Some_0) || a == key_enc(c2->Some_0) || a == key_enc(c3->Some_0)
                || a == key_enc(c4->Some_0)) by {
                lemma_child_coverage(k, a);
            };
        }
        let ghost mut pos1: int = -1;
        let ghost mut pos2: int = -1;
        let ghost mut pos3: int = -1;
        let ghost mut pos4: int = -1;
        if let Some(c) = c1 {
            if self.data.contains_key(&c.inner_key()) {
                queue.push_back(c);
                proof {
                    pos1 = queue@.len() - 1;
                }
            }
        }
        if let Some(c) = c2 {
            if self.data.contains_key(&c.inner_key()) {
                queue.push_back(c);
                proof {
                    pos2 = queue@.len() - 1;
                }
            }
        }
        if let Some(c) = c3 {
            if self.data.contains_key(&c.inner_key()) {
                queue.push_back(c);
                proof {
                    pos3 = queue@.len() - 1;
                }
            }
        }
        if let Some(c) = c4 {
            if self.data.contains_key(&c.inner_key()) {
                queue.push_back(c);
                proof {
                    pos4 = queue@.len() - 1;
                }
            }
        }
        proof {
            assert forall|a: u64|
                code_child_of(a, enc_k) && self@.contains_key(a) && k.spec_depth()
                    < target_depth implies exists|i: int|
                    q_in.len() <= i < queue@.len() && key_enc(#[trigger] queue@[i]) == a by {
                if c1 matches Some(q) && a == key_enc(q) {
                    assert(q_in.len() <= pos1 < queue@.len() && key_enc(queue@[pos1]) == a);
                }
                if c2 matches Some(q) && a == key_enc(q) {
                    assert(q_in.len() <= pos2 < queue@.len() && key_enc(queue@[pos2]) == a);
                }
                if c3 matches Some(q) && a == key_enc(q) {
                    assert(q_in.len() <= pos3 < queue@.len() && key_enc(queue@[pos3]) == a);
                }
                if c4 matches Some(q) && a == key_enc(q) {
                    assert(q_in.len() <= pos4 < queue@.len() && key_enc(queue@[pos4]) == a);
                }
            };
        }
    }

    /// Walks the stored tree from key down to target_depth, breadth first,
    /// descending only into stored children. Yields nothing when key itself
    /// is not stored; otherwise it yields, in an order of non-decreasing
    /// depth starting at key, exactly the stored cells of key's subtree down
    /// to the target depth, each once.
    #[verifier::rlimit(100)]
    pub fn walk(&self, key: QTreeKey, target_depth: u8) -> (r: Vec<QTreeKey>)
        requires
            self.wf(),
        ensures
            !self@.contains_key(key_enc(key)) ==> r@.len() == 0,
            self@.contains_key(key_enc(key)) ==> r@.len() > 0 && r@[0] == key,
            forall|j: int, l: int|
                0 <= j < r@.len() && 0 <= l < r@.len() && j != l ==> key_enc(#[trigger] r@[j])
                    != key_enc(#[trigger] r@[l]),
            forall|j: int, l: int|
                0 <= j <= l < r@.len() ==> (#[trigger] r@[j]).spec_depth() <= (
                #[trigger] r@[l]).spec_depth(),
            forall|e: u64|
                #[trigger] walk_visits(self@, key_enc(key), target_depth as int, e)
                    <==> exists|j: int| 0 <= j < r@.len() && key_enc(#[trigger] r@[j]) == e,
    {
        proof {
            use_type_invariant(key);
            lemma_key_decode(key);
        }
        let ghost root_e = key_enc(key);
        let ghost td = target_depth as int;
        let mut result: Vec<QTreeKey> = Vec::new();
        if self.data.get(&key.inner_key()).is_none() {
            proof {
                lemma_walk_absent(self@, root_e, td);
            }
            return result;
        }
        let mut queue: std::collections::VecDeque<QTreeKey> =
            std::collections::VecDeque::new();
        queue.push_back(key);
        proof {
            lemma_walk_init(self@, td, key);
            assert(queue@ =~= seq![key]);
            assert(result@ =~= Seq::<QTreeKey>::empty());
        }
        loop
            invariant
                self.wf(),
                self@.dom().finite(),
                code_wf(root_e),
                root_e == key_enc(key),
                td == target_depth as int,
                self@.contains_key(root_e),
                walk_inv(self@, root_e, td, key, result@, queue@),
            ensures
                queue@.len() == 0,
                walk_inv(self@, root_e, td, key, result@, queue@),
            decreases walk_remaining(self@, root_e, td, result@),
        {
            let ghost r_pre = result@;
            let ghost q_pre = queue@;
            let popped = queue.pop_front();
            match popped {
                None => {
                    break;
                },
                Some(k) => {
                    proof {
                        use_type_invariant(k);
                    }
                    if self.data.get(&k.inner_key()).is_some() {
                        result.push(k);
                        self.enqueue_children(&mut queue, k, target_depth);
                        proof {
                            let step = (WalkStep {
                                m: self@,
                                root_e,
                                td,
                                key,
                                r_pre,
                                q_pre,
                                k,
                                r_new: result@,
                                q_new: queue@,
                            });
                            step.conclude();
                        }
                    } else {
                        proof {
                            reveal(walk_inv);
                            assert(false);
                        }
                        break;
                    }
                },
            }
        }
        proof {
            assert(queue@ =~= Seq::<QTreeKey>::empty());
            lemma_walk_finish(self@, root_e, td, key, result@);
        }
        result
    }
}

impl<T> ReadonlyQTree<T> for QTree<T> {
    fn get(&self, key: QTreeKey) -> Option<&QTreeNode<T>> {
        self.data.get(&key.inner_key())
    }

    fn get_mut(&mut self, key: QTreeKey) -> Option<&mut QTreeNode<T>> {
        let enc = key.inner_key();
        if self.data.contains_key(&enc) {
            Some(self.data.entry(enc).or_insert(QTreeNode { data: None }))
        } else {
            None
        }
    }
}

} // verus!
