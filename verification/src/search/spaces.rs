//! Small integer search spaces for exercising the engine.
//!
//! Each space's neighbor rule offers the moves `s - 1`, `s`, `s + 1` (or all
//! nine single-step moves on a grid), kept only while they stay inside the
//! space's bounds; states at the numeric limits of the carrier type generate
//! no move that the type cannot represent.

use vstd::prelude::*;

use crate::search::tabu::SearchSpace;

verus! {

/// States are non-negative integers, the cost of a state is its own value,
/// and the neighbors of `s` are `s - 1`, `s` and `s + 1` clipped to stay
/// non-negative.
pub struct LinearSpace;

impl SearchSpace for LinearSpace {
    type St = u32;

    type Model = u32;

    open spec fn view_state(&self, s: u32) -> u32 {
        s
    }

    open spec fn spec_cost(&self, m: u32) -> i64 {
        m as i64
    }

    open spec fn spec_neighbors(&self, m: u32) -> Seq<u32> {
        (if m >= 1 {
            seq![(m - 1) as u32]
        } else {
            Seq::<u32>::empty()
        }) + seq![m] + (if m < u32::MAX {
            seq![(m + 1) as u32]
        } else {
            Seq::<u32>::empty()
        })
    }

    fn cost(&self, s: &u32) -> (c: i64) {
        *s as i64
    }

    fn neighbors(&self, s: &u32) -> (v: Vec<u32>) {
        let mut v: Vec<u32> = Vec::new();
        if *s >= 1 {
            v.push(*s - 1);
        }
        v.push(*s);
        if *s < u32::MAX {
            v.push(*s + 1);
        }
        proof {
            assert(v@.map_values(|t: u32| self.view_state(t)) =~= self.spec_neighbors(
                self.view_state(*s),
            ));
        }
        v
    }

    fn state_eq(&self, a: &u32, b: &u32) -> (r: bool) {
        *a == *b
    }

    fn dup_state(&self, s: &u32) -> (r: u32) {
        *s
    }
}

/// States are the integers `0 ..= 10`; the cost of `s` is `s - 3` below `3`
/// and `3 - s` from `3` upward, so the cost falls toward both ends of the
/// range and the well around `3` must be escaped to reach the far boundary.
pub struct BarrierSpace;

impl SearchSpace for BarrierSpace {
    type St = u8;

    type Model = u8;

    open spec fn view_state(&self, s: u8) -> u8 {
        s
    }

    open spec fn spec_cost(&self, m: u8) -> i64 {
        if m < 3 {
            ((m as int) - 3) as i64
        } else {
            (3 - (m as int)) as i64
        }
    }

    open spec fn spec_neighbors(&self, m: u8) -> Seq<u8> {
        (if 1 <= m && m <= 11 {
            seq![(m - 1) as u8]
        } else {
            Seq::<u8>::empty()
        }) + (if m <= 10 {
            seq![m]
        } else {
            Seq::<u8>::empty()
        }) + (if m <= 9 {
            seq![(m + 1) as u8]
        } else {
            Seq::<u8>::empty()
        })
    }

    fn cost(&self, s: &u8) -> (c: i64) {
        if *s < 3 {
            (*s as i64) - 3
        } else {
            3 - (*s as i64)
        }
    }

    fn neighbors(&self, s: &u8) -> (v: Vec<u8>) {
        let mut v: Vec<u8> = Vec::new();
        if 1 <= *s && *s <= 11 {
            v.push(*s - 1);
        }
        if *s <= 10 {
            v.push(*s);
        }
        if *s <= 9 {
            v.push(*s + 1);
        }
        proof {
            assert(v@.map_values(|t: u8| self.view_state(t)) =~= self.spec_neighbors(
                self.view_state(*s),
            ));
        }
        v
    }

    fn state_eq(&self, a: &u8, b: &u8) -> (r: bool) {
        *a == *b
    }

    fn dup_state(&self, s: &u8) -> (r: u8) {
        *s
    }
}

/// States are grid points; the cost of `(x, y)` is its squared distance to
/// `(5, 5)`, and the neighbors are the nine points one step away in each
/// direction (including staying put).
pub struct QuadraticSpace;

impl SearchSpace for QuadraticSpace {
    type St = (i16, i16);

    type Model = (i16, i16);

    open spec fn view_state(&self, s: (i16, i16)) -> (i16, i16) {
        s
    }

    open spec fn spec_cost(&self, m: (i16, i16)) -> i64 {
        let dx = (m.0 as i64) - 5;
        let dy = (m.1 as i64) - 5;
        (dx * dx + dy * dy) as i64
    }

    open spec fn spec_neighbors(&self, m: (i16, i16)) -> Seq<(i16, i16)> {
        if i16::MIN < m.0 && m.0 < i16::MAX && i16::MIN < m.1 && m.1 < i16::MAX {
            seq![
                (((m.0 - 1) as i16), ((m.1 - 1) as i16)),
                (((m.0 - 1) as i16), m.1),
                (((m.0 - 1) as i16), ((m.1 + 1) as i16)),
                (m.0, ((m.1 - 1) as i16)),
                (m.0, m.1),
                (m.0, ((m.1 + 1) as i16)),
                (((m.0 + 1) as i16), ((m.1 - 1) as i16)),
                (((m.0 + 1) as i16), m.1),
                (((m.0 + 1) as i16), ((m.1 + 1) as i16)),
            ]
        } else {
            Seq::<(i16, i16)>::empty()
        }
    }

    fn cost(&self, s: &(i16, i16)) -> (c: i64) {
        let dx = (s.0 as i64) - 5;
        let dy = (s.1 as i64) - 5;
        proof {
            assert(dx * dx >= 0 && dx * dx <= 0x8004_0004_0000i64 && dy * dy >= 0 && dy * dy
                <= 0x8004_0004_0000i64) by (nonlinear_arith)
                requires
                    -0x8005i64 <= dx <= 0x8005i64,
                    -0x8005i64 <= dy <= 0x8005i64,
            ;
        }
        dx * dx + dy * dy
    }

    fn neighbors(&self, s: &(i16, i16)) -> (v: Vec<(i16, i16)>) {
        let mut v: Vec<(i16, i16)> = Vec::new();
        let x = s.0;
        let y = s.1;
        if i16::MIN < x && x < i16::MAX && i16::MIN < y && y < i16::MAX {
            v.push((x - 1, y - 1));
            v.push((x - 1, y));
            v.push((x - 1, y + 1));
            v.push((x, y - 1));
            v.push((x, y));
            v.push((x, y + 1));
            v.push((x + 1, y - 1));
            v.push((x + 1, y));
            v.push((x + 1, y + 1));
        }
        proof {
            assert(v@.map_values(|t: (i16, i16)| self.view_state(t)) =~= self.spec_neighbors(
                self.view_state(*s),
            ));
        }
        v
    }

    fn state_eq(&self, a: &(i16, i16), b: &(i16, i16)) -> (r: bool) {
        a.0 == b.0 && a.1 == b.1
    }

    fn dup_state(&self, s: &(i16, i16)) -> (r: (i16, i16)) {
        (s.0, s.1)
    }
}

} // verus!
