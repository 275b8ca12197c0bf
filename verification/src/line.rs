//! Occupancy state of one line (row, column or box): a 9-bit mask in which
//! bit `d - 1` records that digit `d` already occupies some cell of the line.
//!
//! Transitions are value-semantic: `add` and `remove` return the new state,
//! so a caller can compute tentative states and commit them atomically.

use vstd::prelude::*;

use crate::digit::{dv, mask_of, Value};

verus! {

/// The occupancy mask of one line.
#[derive(Debug, Clone, Copy, PartialEq, Eq, Structural)]
pub struct LineState {
    pub bits: u16,
}

impl LineState {
    /// Digit `d` occupies some cell of this line.
    pub open spec fn has(self, d: int) -> bool {
        self.bits & mask_of(d) != 0
    }

    /// A line with no occupied cell.
    pub fn empty() -> (r: LineState)
        ensures
            forall|d: int| 1 <= d <= 9 ==> !r.has(d),
    {
        proof {
            assert forall|d: int| 1 <= d <= 9 implies !(LineState { bits: 0u16 }).has(d) by {
                let s = (d - 1) as u16;
                assert(0u16 & (1u16 << s) == 0) by (bit_vector);
            }
        }
        LineState { bits: 0 }
    }

    /// Marks digit `v` as occupying the line; fails if it already does,
    /// leaving the state untouched (the mask doubles as the uniqueness
    /// conflict detector).
    pub fn add(&self, v: &Value) -> (r: Result<LineState, ()>)
        requires
            1 <= dv(*v) <= 9,
        ensures
            r is Ok <==> !self.has(dv(*v)),
            r matches Ok(ns) ==> forall|e: int|
                1 <= e <= 9 ==> (#[trigger] ns.has(e) <==> self.has(e) || e == dv(*v)),
    {
        let m = v.mask();
        let new_bits = self.bits | m;
        proof {
            let bits = self.bits;
            let s = (dv(*v) - 1) as u16;
            assert(((bits | (1u16 << s)) == bits) <==> (bits & (1u16 << s) != 0)) by (bit_vector)
                requires
                    s < 9,
            ;
            assert forall|e: int| 1 <= e <= 9 implies ((#[trigger] (LineState {
                bits: bits | (1u16 << s),
            }).has(e)) <==> (self.has(e) || e == dv(*v))) by {
                let t = (e - 1) as u16;
                assert((((bits | (1u16 << s)) & (1u16 << t)) != 0) <==> ((bits & (1u16 << t) != 0)
                    || s == t)) by (bit_vector)
                    requires
                        s < 9 && t < 9,
                ;
            }
        }
        if new_bits == self.bits {
            Err(())
        } else {
            Ok(LineState { bits: new_bits })
        }
    }

    /// Unconditionally clears the bit of digit `v`; removing a digit that is
    /// absent (or a blank, which owns no bit) changes nothing.
    pub fn remove(&self, v: &Value) -> (r: LineState)
        ensures
            forall|e: int| 1 <= e <= 9 ==> (#[trigger] r.has(e) <==> self.has(e) && e != dv(*v)),
    {
        let m = v.mask();
        proof {
            let bits = self.bits;
            crate::digit::lemma_dv_range(*v);
            if dv(*v) == 0 {
                assert forall|e: int| 1 <= e <= 9 implies ((#[trigger] (LineState {
                    bits: bits & !0u16,
                }).has(e)) <==> (self.has(e) && e != dv(*v))) by {
                    let t = (e - 1) as u16;
                    assert(((bits & !0u16) & (1u16 << t) != 0) <==> (bits & (1u16 << t)
                        != 0)) by (bit_vector);
                }
            } else {
                let s = (dv(*v) - 1) as u16;
                assert forall|e: int| 1 <= e <= 9 implies ((#[trigger] (LineState {
                    bits: bits & !(1u16 << s),
                }).has(e)) <==> (self.has(e) && e != dv(*v))) by {
                    let t = (e - 1) as u16;
                    assert(((bits & !(1u16 << s)) & (1u16 << t) != 0) <==> ((bits & (1u16 << t)
                        != 0) && s != t)) by (bit_vector)
                        requires
                            s < 9 && t < 9,
                    ;
                }
            }
        }
        LineState { bits: self.bits & !m }
    }
}

} // verus!
