//! Viewport tile-range enumeration: all keys of one depth inside an
//! axis-aligned rectangle, in the render order of the map loop.

use vstd::prelude::*;
use vstd::arithmetic::div_mod::lemma_fundamental_div_mod_converse;
use vstd::arithmetic::mul::lemma_mul_inequality;

use crate::qtree::QTreeKey;

verus! {

/// Enumerates every key of the rectangle spanned by the top-left key lt and
/// the bottom-right key rb, both of one depth: serpentine from rb, each row
/// walked right to left, rows walked bottom to top, ending at lt. Element i
/// sits at column rb.x - i % width and row rb.y - i / width.
#[verifier::rlimit(100)]
pub fn walk(lt: QTreeKey, rb: QTreeKey) -> (r: Vec<QTreeKey>)
    requires
        lt.spec_depth() == rb.spec_depth(),
        lt.spec_x() <= rb.spec_x(),
        lt.spec_y() <= rb.spec_y(),
    ensures
        r@.len() == (rb.spec_x() - lt.spec_x() + 1) * (rb.spec_y() - lt.spec_y() + 1),
        forall|i: int|
            0 <= i < r@.len() ==> (#[trigger] r@[i]).spec_depth() == lt.spec_depth()
                && r@[i].spec_x() == rb.spec_x() - (i % (rb.spec_x() - lt.spec_x() + 1))
                && r@[i].spec_y() == rb.spec_y() - (i / (rb.spec_x() - lt.spec_x() + 1)),
{
    let ghost w = rb.spec_x() - lt.spec_x() + 1;
    let ghost h = rb.spec_y() - lt.spec_y() + 1;
    let mut out: Vec<QTreeKey> = Vec::new();
    let mut row_head = rb;
    let mut curr_opt: Option<QTreeKey> = Some(rb);
    proof {
        assert(w * h >= w * 1 == w) by {
            lemma_mul_inequality(1, h, w);
        };
    }
    loop
        invariant
            lt.spec_depth() == rb.spec_depth(),
            lt.spec_x() <= rb.spec_x(),
            lt.spec_y() <= rb.spec_y(),
            w == rb.spec_x() - lt.spec_x() + 1,
            h == rb.spec_y() - lt.spec_y() + 1,
            row_head.spec_depth() == rb.spec_depth(),
            row_head.spec_x() == rb.spec_x(),
            curr_opt matches Some(c) ==> c.spec_depth() == rb.spec_depth() && lt.spec_x()
                <= c.spec_x() <= rb.spec_x() && lt.spec_y() <= c.spec_y() <= rb.spec_y()
                && c.spec_y() == row_head.spec_y() && out@.len() == (rb.spec_y() - c.spec_y()) * w
                + (rb.spec_x() - c.spec_x()),
            curr_opt is None ==> out@.len() == w * h,
            forall|i: int|
                0 <= i < out@.len() ==> (#[trigger] out@[i]).spec_depth() == lt.spec_depth()
                    && out@[i].spec_x() == rb.spec_x() - (i % w) && out@[i].spec_y() == rb.spec_y()
                    - (i / w),
        ensures
            curr_opt is None,
        decreases (if curr_opt is Some {
            1int
        } else {
            0int
        }), w * h - out@.len(),
    {
        match curr_opt {
            None => {
                break;
            },
            Some(c) => {
                proof {
                    let n = out@.len() as int;
                    lemma_fundamental_div_mod_converse(
                        n, w, rb.spec_y() - c.spec_y(), rb.spec_x() - c.spec_x());
                }
                out.push(c);
                if c.x() == lt.x() {
                    if c.y() == lt.y() {
                        curr_opt = None;
                        proof {
                            assert(out@.len() == (h - 1) * w + (w - 1) + 1 == w * h)
                                by (nonlinear_arith)
                                requires
                                    out@.len() == (rb.spec_y() - lt.spec_y()) * w + (rb.spec_x()
                                        - lt.spec_x()) + 1,
                                    w == rb.spec_x() - lt.spec_x() + 1,
                                    h == rb.spec_y() - lt.spec_y() + 1,
                            ;
                        }
                    } else {
                        row_head = row_head.top();
                        curr_opt = Some(row_head);
                        proof {
                            assert((rb.spec_y() - row_head.spec_y()) * w == (rb.spec_y()
                                - (row_head.spec_y() + 1)) * w + w) by (nonlinear_arith);
                        }
                    }
                } else {
                    curr_opt = Some(c.left());
                }
                proof {
                    if let Some(c2) = curr_opt {
                        assert(out@.len() < w * h) by (nonlinear_arith)
                            requires
                                out@.len() == (rb.spec_y() - c2.spec_y()) * w + (rb.spec_x()
                                    - c2.spec_x()),
                                lt.spec_x() <= c2.spec_x() <= rb.spec_x(),
                                lt.spec_y() <= c2.spec_y() <= rb.spec_y(),
                                w == rb.spec_x() - lt.spec_x() + 1,
                                h == rb.spec_y() - lt.spec_y() + 1,
                        ;
                    }
                }
            },
        }
    }
    out
}

} // verus!
