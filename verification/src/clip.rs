//! Ancestor-fallback clipping: the relative sub-rectangle of an ancestor's
//! tile that covers a deeper tile's cell.

use vstd::prelude::*;
use vstd::arithmetic::div_mod::lemma_fundamental_div_mod;
use vstd::arithmetic::power2::{lemma_pow2_adds, lemma_pow2_pos, pow2};
use vstd::bits::{lemma_u32_pow2_no_overflow, lemma_u32_shl_is_mul};

use crate::qtree::QTreeKey;

verus! {

/// A relative sub-rectangle of a tile: the cell at (dx/scale, dy/scale) of
/// side 1/scale, in tile-relative coordinates.
#[derive(Debug, Clone, Copy, PartialEq, Eq, Structural)]
pub struct TileClip {
    pub dx: u32,
    pub dy: u32,
    pub scale: u32,
}

/// top_key addresses the ancestor cell of key at top_key's depth: key's
/// coordinates shifted down by the depth difference are top_key's.
pub open spec fn is_above(top_key: QTreeKey, key: QTreeKey) -> bool {
    &&& top_key.spec_depth() <= key.spec_depth()
    &&& top_key.spec_x() == key.spec_x() / pow2(
        (key.spec_depth() - top_key.spec_depth()) as nat) as int
    &&& top_key.spec_y() == key.spec_y() / pow2(
        (key.spec_depth() - top_key.spec_depth()) as nat) as int
}

/// The sub-rectangle of top_key's tile that covers key's cell: the scale is
/// the cell count per axis between the two depths, and the offsets are key's
/// coordinates relative to top_key's cell.
pub fn clip_from_top_key(top_key: QTreeKey, key: QTreeKey) -> (r: TileClip)
    requires
        is_above(top_key, key),
    ensures
        r.scale == pow2((key.spec_depth() - top_key.spec_depth()) as nat),
        r.dx == key.spec_x() - top_key.spec_x() * r.scale,
        r.dy == key.spec_y() - top_key.spec_y() * r.scale,
        r.dx < r.scale,
        r.dy < r.scale,
{
    proof {
        use_type_invariant(top_key);
        use_type_invariant(key);
        top_key.lemma_bounds();
        key.lemma_bounds();
        let zn = (key.spec_depth() - top_key.spec_depth()) as nat;
        lemma_pow2_pos(zn);
        lemma_u32_pow2_no_overflow(zn);
        lemma_pow2_adds(top_key.spec_depth() as nat, zn);
        lemma_fundamental_div_mod(key.spec_x(), pow2(zn) as int);
        lemma_fundamental_div_mod(key.spec_y(), pow2(zn) as int);
    }
    let z: u8 = key.depth() - top_key.depth();
    let tx: u32 = top_key.x();
    let ty: u32 = top_key.y();
    proof {
        lemma_u32_shl_is_mul(1u32, z as u32);
        lemma_u32_shl_is_mul(tx, z as u32);
        lemma_u32_shl_is_mul(ty, z as u32);
    }
    let block_count: u32 = 1u32 << (z as u32);
    let sx: u32 = tx << (z as u32);
    let sy: u32 = ty << (z as u32);
    TileClip { dx: key.x() - sx, dy: key.y() - sy, scale: block_count }
}

} // verus!
