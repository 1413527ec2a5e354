//! Axial hex coordinates and their distance.
use vstd::arithmetic::div_mod::{lemma_fundamental_div_mod, lemma_fundamental_div_mod_converse};
use vstd::prelude::*;

verus! {

/// A hex of the map in axial coordinates: `q` grows eastwards, `r` southwards.
#[derive(Debug, Clone, Copy, PartialEq, Eq, Hash, Default, Structural)]
pub struct HexCoord {
    pub q: i32,
    pub r: i32,
}

/// The six directions in which a hex has a neighbour.
#[derive(Debug, Clone, Copy, PartialEq, Eq, Hash, Structural)]
pub enum HexDirection {
    E,
    NE,
    NW,
    W,
    SW,
    SE,
}

/// The larger of two integers.
pub open spec fn max_int(a: int, b: int) -> int {
    if a < b {
        b
    } else {
        a
    }
}

/// The magnitude of an integer.
pub open spec fn magnitude(a: int) -> int {
    if a < 0 {
        -a
    } else {
        a
    }
}

/// How many steps between neighbouring hexes lie between `a` and `b`.
pub open spec fn hex_distance(a: HexCoord, b: HexCoord) -> int {
    max_int(
        magnitude(a.q - b.q),
        max_int(magnitude(a.r - b.r), magnitude((a.q + a.r) - (b.q + b.r))),
    )
}

/// The change of `q` and of `r` that one step in a direction makes.
pub open spec fn step_of(d: HexDirection) -> (int, int) {
    match d {
        HexDirection::E => (1, 0),
        HexDirection::NE => (1, -1),
        HexDirection::NW => (0, -1),
        HexDirection::W => (-1, 0),
        HexDirection::SW => (-1, 1),
        HexDirection::SE => (0, 1),
    }
}

/// The hex `n` is the neighbour of `h` in direction `d`.
pub open spec fn is_step(h: HexCoord, d: HexDirection, n: HexCoord) -> bool {
    n.q == h.q + step_of(d).0 && n.r == h.r + step_of(d).1
}

fn magnitude_of(a: i64) -> (m: i64)
    requires
        a > i64::MIN,
    ensures
        m == magnitude(a as int),
{
    if a < 0 {
        -a
    } else {
        a
    }
}

impl HexCoord {
    pub fn new(q: i32, r: i32) -> (h: HexCoord)
        ensures
            h.q == q,
            h.r == r,
    {
        HexCoord { q, r }
    }

    /// How many steps lie between this hex and `other`.
    pub fn distance(self, other: HexCoord) -> (d: i64)
        ensures
            d == hex_distance(self, other),
            0 <= d <= 0x2_0000_0000,
    {
        let dq: i64 = magnitude_of(self.q as i64 - other.q as i64);
        let dr: i64 = magnitude_of(self.r as i64 - other.r as i64);
        let ds: i64 = magnitude_of((self.q as i64 + self.r as i64) - (other.q as i64 + other.r as i64));
        let m: i64 = if dr < ds {
            ds
        } else {
            dr
        };
        if dq < m {
            m
        } else {
            dq
        }
    }

    /// The neighbour in a direction, or `None` where the coordinates end.
    pub fn step(self, d: HexDirection) -> (n: Option<HexCoord>)
        ensures
            match n {
                Some(h) => is_step(self, d, h),
                None => !(i32::MIN <= self.q + step_of(d).0 <= i32::MAX) || !(i32::MIN <= self.r
                    + step_of(d).1 <= i32::MAX),
            },
    {
        let (dq, dr): (i64, i64) = match d {
            HexDirection::E => (1, 0),
            HexDirection::NE => (1, -1),
            HexDirection::NW => (0, -1),
            HexDirection::W => (-1, 0),
            HexDirection::SW => (-1, 1),
            HexDirection::SE => (0, 1),
        };
        let q: i64 = self.q as i64 + dq;
        let r: i64 = self.r as i64 + dr;
        if q < i32::MIN as i64 || q > i32::MAX as i64 || r < i32::MIN as i64 || r > i32::MAX as i64 {
            None
        } else {
            Some(HexCoord { q: q as i32, r: r as i32 })
        }
    }
}

/// The distance is the same both ways, vanishes exactly between equal hexes,
/// and a detour is never shorter.
pub proof fn law_distance_is_a_metric(a: HexCoord, b: HexCoord, c: HexCoord)
    ensures
        hex_distance(a, b) == hex_distance(b, a),
        hex_distance(a, b) >= 0,
        hex_distance(a, b) == 0 <==> a == b,
        hex_distance(a, c) <= hex_distance(a, b) + hex_distance(b, c),
{
}

/// Two hexes lie one step apart exactly when one is the neighbour of the other
/// in some direction.
pub proof fn law_neighbours_are_one_step_apart(h: HexCoord, n: HexCoord)
    ensures
        hex_distance(h, n) == 1 <==> exists|d: HexDirection| #[trigger] is_step(h, d, n),
{
    if hex_distance(h, n) == 1 {
        let d = if n.q == h.q + 1 {
            if n.r == h.r {
                HexDirection::E
            } else {
                HexDirection::NE
            }
        } else if n.q == h.q {
            if n.r < h.r {
                HexDirection::NW
            } else {
                HexDirection::SE
            }
        } else if n.r == h.r {
            HexDirection::W
        } else {
            HexDirection::SW
        };
        assert(is_step(h, d, n));
    }
}

/// The hex at place `k` of the square round `c`, if it lies within `n` steps.
pub open spec fn disc_cell(c: HexCoord, n: int, k: int) -> Option<HexCoord> {
    let q = c.q + k / (2 * n + 1) - n;
    let r = c.r + k % (2 * n + 1) - n;
    if i32::MIN <= q <= i32::MAX && i32::MIN <= r <= i32::MAX && hex_distance(
        c,
        HexCoord { q: q as i32, r: r as i32 },
    ) <= n {
        Some(HexCoord { q: q as i32, r: r as i32 })
    } else {
        None
    }
}

/// The hexes within `n` steps of `c` at the first `k` places.
pub open spec fn disc_upto(c: HexCoord, n: int, k: nat) -> Seq<HexCoord>
    decreases k,
{
    if k == 0 {
        Seq::empty()
    } else {
        match disc_cell(c, n, k - 1) {
            Some(h) => disc_upto(c, n, (k - 1) as nat).push(h),
            None => disc_upto(c, n, (k - 1) as nat),
        }
    }
}

/// The hexes within `n` steps of `c`.
pub open spec fn disc(c: HexCoord, n: nat) -> Seq<HexCoord> {
    disc_upto(c, n as int, (2 * n + 1) * (2 * n + 1))
}

impl HexCoord {
    /// The hexes within `n` steps of this one.
    pub fn hexes_in_range(self, n: u8) -> (s: Vec<HexCoord>)
        ensures
            s@ == disc(self, n as nat),
    {
        let w: i64 = 2 * (n as i64) + 1;
        assert(w * w <= 511 * 511) by (nonlinear_arith)
            requires
                0 <= w <= 511,
        ;
        let mut out: Vec<HexCoord> = Vec::new();
        let mut k: i64 = 0;
        while k < w * w
            invariant
                w == 2 * n + 1,
                w * w <= 511 * 511,
                0 <= k <= w * w,
                out@ == disc_upto(self, n as int, k as nat),
            decreases w * w - k,
        {
            proof {
                lemma_fundamental_div_mod(k as int, w as int);
                assert(0 <= k / w <= k) by (nonlinear_arith)
                    requires
                        k >= 0,
                        w >= 1,
                ;
            }
            let q: i64 = self.q as i64 + k / w - n as i64;
            let r: i64 = self.r as i64 + k % w - n as i64;
            if q >= i32::MIN as i64 && q <= i32::MAX as i64 && r >= i32::MIN as i64 && r
                <= i32::MAX as i64 {
                let h = HexCoord { q: q as i32, r: r as i32 };
                if self.distance(h) <= n as i64 {
                    out.push(h);
                }
            }
            k += 1;
        }
        out
    }
}

proof fn lemma_disc_upto(c: HexCoord, n: int, k: nat, h: HexCoord)
    ensures
        disc_upto(c, n, k).contains(h) <==> exists|j: int| 0 <= j < k && #[trigger] disc_cell(c, n, j) == Some(h),
    decreases k,
{
    if k > 0 {
        lemma_disc_upto(c, n, (k - 1) as nat, h);
        let rest = disc_upto(c, n, (k - 1) as nat);
        let all = disc_upto(c, n, k);
        if all.contains(h) {
            let i = choose|i: int| 0 <= i < all.len() && all[i] == h;
            if i < rest.len() {
                assert(rest[i] == h);
                assert(rest.contains(h));
            } else {
                assert(disc_cell(c, n, k - 1) == Some(h));
            }
        }
        if exists|j: int| 0 <= j < k && #[trigger] disc_cell(c, n, j) == Some(h) {
            let j = choose|j: int| 0 <= j < k && #[trigger] disc_cell(c, n, j) == Some(h);
            if j < k - 1 {
                assert(rest.contains(h));
                let i = choose|i: int| 0 <= i < rest.len() && rest[i] == h;
                assert(all[i] == h);
            } else {
                assert(all.last() == h);
            }
        }
    }
}

/// The disc holds exactly the hexes within its radius.
pub proof fn law_disc(c: HexCoord, n: nat, h: HexCoord)
    ensures
        disc(c, n).contains(h) <==> hex_distance(c, h) <= n,
{
    let w = 2 * n + 1;
    lemma_disc_upto(c, n as int, w * w, h);
    if hex_distance(c, h) <= n {
        let dq = h.q - c.q + n;
        let dr = h.r - c.r + n;
        let k = dq * w + dr;
        assert(0 <= dq < w && 0 <= dr < w);
        assert(0 <= k < w * w) by (nonlinear_arith)
            requires
                0 <= dq < w,
                0 <= dr < w,
                k == dq * w + dr,
        ;
        assert(k == w * dq + dr) by (nonlinear_arith)
            requires
                k == dq * w + dr,
        ;
        lemma_fundamental_div_mod_converse(k, w as int, dq, dr);
        assert(disc_cell(c, n as int, k) == Some(h));
    }
}

} // verus!
