//! The hex map of a battle.
use vstd::prelude::*;
use vstd::set_lib::{lemma_int_range, lemma_len_subset, set_int_range};
use crate::hex::{HexCoord, HexDirection, hex_distance, step_of};

verus! {

/// One hex of the map.
#[derive(Debug, Clone, Copy, PartialEq, Eq, Structural)]
pub struct Cell {
    pub passable: bool,
    /// Outside the contested province.
    pub out_of_bounds: bool,
    pub river: bool,
    pub urban: bool,
    pub elevation: i64,
    /// The cover that the ground gives: a single-precision share, held by an
    /// integer that orders as the share does; 0 stands for no cover.
    pub cover: i64,
}

/// The map: a rectangle of hexes, `q` from 0 to `width - 1` and `r` from 0 to
/// `height - 1`.
pub struct HexGrid {
    width: usize,
    height: usize,
    cells: Vec<Cell>,
    attack_dirs: Vec<HexDirection>,
    compass: Vec<HexDirection>,
}

/// A set of hexes of one map.
pub struct HexMarks {
    width: usize,
    height: usize,
    marks: Vec<bool>,
}

/// The order lists each of the six directions once.
pub open spec fn full_compass(s: Seq<HexDirection>) -> bool {
    &&& s.len() == 6
    &&& s.no_duplicates()
    &&& s.contains(HexDirection::E)
    &&& s.contains(HexDirection::NE)
    &&& s.contains(HexDirection::NW)
    &&& s.contains(HexDirection::W)
    &&& s.contains(HexDirection::SW)
    &&& s.contains(HexDirection::SE)
}

/// The neighbour of `h` in direction `d`, where the coordinates reach it.
pub open spec fn neighbour(h: HexCoord, d: HexDirection) -> Option<HexCoord> {
    let q = h.q + step_of(d).0;
    let r = h.r + step_of(d).1;
    if i32::MIN <= q <= i32::MAX && i32::MIN <= r <= i32::MAX {
        Some(HexCoord { q: q as i32, r: r as i32 })
    } else {
        None
    }
}

/// The neighbours of `h` in the first `k` directions of an order.
pub open spec fn neighbours_upto(order: Seq<HexDirection>, h: HexCoord, k: nat) -> Seq<HexCoord>
    decreases k,
{
    if k == 0 {
        Seq::empty()
    } else {
        let rest = neighbours_upto(order, h, (k - 1) as nat);
        match neighbour(h, order[k - 1]) {
            Some(n) => rest.push(n),
            None => rest,
        }
    }
}

/// The first `k` of some hexes, those that are passable hexes of the map.
pub open spec fn open_upto(g: &HexGrid, s: Seq<HexCoord>, k: nat) -> Seq<HexCoord>
    decreases k,
{
    if k == 0 {
        Seq::empty()
    } else {
        let rest = open_upto(g, s, (k - 1) as nat);
        if g.open_ground(s[k - 1]) {
            rest.push(s[k - 1])
        } else {
            rest
        }
    }
}

spec fn slot_in(width: usize, h: HexCoord) -> int {
    h.r * width + h.q
}

impl HexGrid {
    #[verifier::type_invariant]
    closed spec fn wf(&self) -> bool {
        &&& self.width <= i32::MAX
        &&& self.height <= i32::MAX
        &&& self.width * self.height <= usize::MAX
        &&& self.cells@.len() == self.width * self.height
        &&& full_compass(self.compass@)
    }

    /// How many columns the map has.
    pub closed spec fn columns(&self) -> nat {
        self.width as nat
    }

    /// How many rows the map has.
    pub closed spec fn rows(&self) -> nat {
        self.height as nat
    }

    /// The edges through which the attacker enters.
    pub closed spec fn entries(&self) -> Seq<HexDirection> {
        self.attack_dirs@
    }

    /// The order in which the neighbours of a hex are listed.
    pub closed spec fn order(&self) -> Seq<HexDirection> {
        self.compass@
    }

    /// Whether `h` is a hex of the map.
    pub open spec fn on_map(&self, h: HexCoord) -> bool {
        0 <= h.q < self.columns() && 0 <= h.r < self.rows()
    }

    /// What stands at a hex of the map.
    pub closed spec fn content(&self, h: HexCoord) -> Cell {
        self.cells@[slot_in(self.width, h)]
    }

    /// What stands at `h`, if `h` is on the map.
    pub open spec fn at(&self, h: HexCoord) -> Option<Cell> {
        if self.on_map(h) {
            Some(self.content(h))
        } else {
            None
        }
    }

    /// Whether `h` is a passable hex of the map.
    pub open spec fn open_ground(&self, h: HexCoord) -> bool {
        self.at(h) matches Some(c) && c.passable
    }

    /// Whether `h` is a river hex of the map.
    pub open spec fn river_at(&self, h: HexCoord) -> bool {
        self.at(h) matches Some(c) && c.river
    }

    /// Whether `h` is a city hex of the map.
    pub open spec fn urban_at(&self, h: HexCoord) -> bool {
        self.at(h) matches Some(c) && c.urban
    }

    /// Whether `h` is a hex of the map outside the contested province.
    pub open spec fn out_of_bounds_at(&self, h: HexCoord) -> bool {
        self.at(h) matches Some(c) && c.out_of_bounds
    }

    /// The neighbours of `h`, in the map's order.
    pub open spec fn around(&self, h: HexCoord) -> Seq<HexCoord> {
        neighbours_upto(self.order(), h, 6)
    }

    /// The passable neighbours of `h`, in the map's order.
    pub open spec fn exits(&self, h: HexCoord) -> Seq<HexCoord> {
        open_upto(self, self.around(h), self.around(h).len())
    }

    /// A map of `width` by `height` equal hexes that lists neighbours
    /// counter-clockwise from the east and names no entry edge.
    pub fn new(width: usize, height: usize, fill: Cell) -> (g: HexGrid)
        requires
            width <= i32::MAX,
            height <= i32::MAX,
            width * height <= usize::MAX,
        ensures
            g.columns() == width,
            g.rows() == height,
            g.entries() == Seq::<HexDirection>::empty(),
            g.order() == seq![
                HexDirection::E,
                HexDirection::NE,
                HexDirection::NW,
                HexDirection::W,
                HexDirection::SW,
                HexDirection::SE,
            ],
            forall|h: HexCoord| g.on_map(h) ==> g.content(h) == fill,
    {
        let n: usize = width * height;
        let mut cells: Vec<Cell> = Vec::new();
        while cells.len() < n
            invariant
                cells@.len() <= n,
                forall|i: int| 0 <= i < cells@.len() ==> cells@[i] == fill,
            decreases n - cells@.len(),
        {
            cells.push(fill);
        }
        let compass: Vec<HexDirection> = vec![
            HexDirection::E,
            HexDirection::NE,
            HexDirection::NW,
            HexDirection::W,
            HexDirection::SW,
            HexDirection::SE,
        ];
        proof {
            let s = compass@;
            assert(s[0] == HexDirection::E && s[1] == HexDirection::NE && s[2] == HexDirection::NW
                && s[3] == HexDirection::W && s[4] == HexDirection::SW && s[5] == HexDirection::SE);
            assert(compass@ =~= seq![
                HexDirection::E,
                HexDirection::NE,
                HexDirection::NW,
                HexDirection::W,
                HexDirection::SW,
                HexDirection::SE,
            ]);
        }
        let g = HexGrid { width, height, cells, attack_dirs: Vec::new(), compass };
        assert forall|h: HexCoord| g.on_map(h) implies g.content(h) == fill by {
            lemma_slot(g.width, g.height, h);
        }
        g
    }

    /// Names the edges through which the attacker enters.
    pub fn set_attack_dirs(&mut self, dirs: Vec<HexDirection>)
        ensures
            final(self).entries() == dirs@,
            final(self).columns() == old(self).columns(),
            final(self).rows() == old(self).rows(),
            final(self).order() == old(self).order(),
            forall|h: HexCoord| final(self).content(h) == old(self).content(h),
    {
        proof {
            use_type_invariant(&*self);
        }
        self.attack_dirs = dirs;
    }

    /// The map with one of its hexes replaced.
    pub fn with_cell(self, h: HexCoord, cell: Cell) -> (g: HexGrid)
        requires
            self.on_map(h),
        ensures
            g.entries() == self.entries(),
            g.columns() == self.columns(),
            g.rows() == self.rows(),
            g.order() == self.order(),
            g.content(h) == cell,
            forall|o: HexCoord| self.on_map(o) && o != h ==> g.content(o) == self.content(o),
    {
        proof {
            use_type_invariant(&self);
            lemma_slot(self.width, self.height, h);
            assert forall|o: HexCoord| self.on_map(o) && o != h implies slot_in(self.width, o)
                != slot_in(self.width, h) by {
                lemma_slots_differ(self.width, o, h);
            }
            assert forall|o: HexCoord| self.on_map(o) implies 0 <= slot_in(self.width, o)
                < self.cells@.len() by {
                lemma_slot(self.width, self.height, o);
            }
        }
        let i: usize = slot_at(self.width, self.height, h);
        let HexGrid { width, height, cells, attack_dirs, compass } = self;
        let mut cells = cells;
        cells.set(i, cell);
        HexGrid { width, height, cells, attack_dirs, compass }
    }

    /// Sets the order in which neighbours are listed, if it lists each
    /// direction once; says whether it does.
    pub fn set_order(&mut self, order: Vec<HexDirection>) -> (done: bool)
        ensures
            done == full_compass(order@),
            final(self).order() == if done {
                order@
            } else {
                old(self).order()
            },
            final(self).entries() == old(self).entries(),
            final(self).columns() == old(self).columns(),
            final(self).rows() == old(self).rows(),
            forall|h: HexCoord| final(self).content(h) == old(self).content(h),
    {
        proof {
            use_type_invariant(&*self);
        }
        let full = lists_every_direction(&order);
        if full {
            self.compass = order;
        }
        full
    }

    /// How many columns the map has.
    pub fn width(&self) -> (w: usize)
        ensures
            w == self.columns(),
            w <= i32::MAX,
            full_compass(self.order()),
    {
        proof {
            use_type_invariant(self);
        }
        self.width
    }

    /// How many rows the map has.
    pub fn height(&self) -> (h: usize)
        ensures
            h == self.rows(),
            h <= i32::MAX,
    {
        proof {
            use_type_invariant(self);
        }
        self.height
    }

    /// The edges through which the attacker enters.
    pub fn attack_dirs(&self) -> (d: &Vec<HexDirection>)
        ensures
            d@ == self.entries(),
    {
        &self.attack_dirs
    }

    /// What stands at `h`, if `h` is on the map.
    pub fn cell(&self, h: HexCoord) -> (c: Option<Cell>)
        ensures
            c == self.at(h),
    {
        proof {
            use_type_invariant(self);
        }
        if h.q < 0 || h.r < 0 || h.q as usize >= self.width || h.r as usize >= self.height {
            return None;
        }
        proof {
            lemma_slot(self.width, self.height, h);
        }
        let i: usize = slot_at(self.width, self.height, h);
        Some(self.cells[i])
    }

    /// Whether `h` is a passable hex of the map.
    pub fn is_open(&self, h: HexCoord) -> (b: bool)
        ensures
            b == self.open_ground(h),
    {
        match self.cell(h) {
            Some(c) => c.passable,
            None => false,
        }
    }

    /// Whether `h` is a river hex of the map.
    pub fn is_river(&self, h: HexCoord) -> (b: bool)
        ensures
            b == self.river_at(h),
    {
        match self.cell(h) {
            Some(c) => c.river,
            None => false,
        }
    }

    /// Whether `h` is a city hex of the map.
    pub fn is_urban(&self, h: HexCoord) -> (b: bool)
        ensures
            b == self.urban_at(h),
    {
        match self.cell(h) {
            Some(c) => c.urban,
            None => false,
        }
    }

    /// Whether `h` is a hex of the map outside the contested province.
    pub fn is_out_of_bounds(&self, h: HexCoord) -> (b: bool)
        ensures
            b == self.out_of_bounds_at(h),
    {
        match self.cell(h) {
            Some(c) => c.out_of_bounds,
            None => false,
        }
    }

    /// The neighbours of `h`, in the map's order.
    pub fn neighbors(&self, h: HexCoord) -> (s: Vec<HexCoord>)
        ensures
            s@ == self.around(h),
            s@.len() <= 6,
            full_compass(self.order()),
    {
        proof {
            use_type_invariant(self);
        }
        let mut out: Vec<HexCoord> = Vec::new();
        let mut k: usize = 0;
        while k < 6
            invariant
                k <= 6,
                self.compass@.len() == 6,
                out@.len() <= k,
                out@ == neighbours_upto(self.order(), h, k as nat),
            decreases 6 - k,
        {
            if let Some(n) = h.step(self.compass[k]) {
                out.push(n);
            }
            k += 1;
        }
        out
    }

    /// The passable neighbours of `h`, in the map's order.
    pub fn passable_neighbors(&self, h: HexCoord) -> (s: Vec<HexCoord>)
        ensures
            s@ == self.exits(h),
            s@.len() <= 6,
            full_compass(self.order()),
    {
        let all: Vec<HexCoord> = self.neighbors(h);
        let mut out: Vec<HexCoord> = Vec::new();
        let mut k: usize = 0;
        while k < all.len()
            invariant
                k <= all@.len() <= 6,
                all@ == self.around(h),
                out@.len() <= k,
                out@ == open_upto(self, all@, k as nat),
            decreases all@.len() - k,
        {
            if self.is_open(all[k]) {
                out.push(all[k]);
            }
            k += 1;
        }
        out
    }
}

fn lists_every_direction(order: &Vec<HexDirection>) -> (b: bool)
    ensures
        b == full_compass(order@),
{
    if order.len() != 6 {
        return false;
    }
    let mut i: usize = 0;
    while i < 6
        invariant
            order@.len() == 6,
            i <= 6,
            forall|a: int, b: int| 0 <= a < i && 0 <= b < 6 && a != b ==> order@[a] != order@[b],
        decreases 6 - i,
    {
        let mut j: usize = 0;
        while j < 6
            invariant
                order@.len() == 6,
                i < 6,
                j <= 6,
                forall|b: int| 0 <= b < j && b != i ==> order@[i as int] != order@[b],
            decreases 6 - j,
        {
            if i != j && order[i] == order[j] {
                assert(!order@.no_duplicates());
                return false;
            }
            j += 1;
        }
        i += 1;
    }
    proof {
        lemma_six_different(order@);
    }
    true
}

proof fn lemma_six_different(s: Seq<HexDirection>)
    requires
        s.len() == 6,
        s.no_duplicates(),
    ensures
        full_compass(s),
{
    assert forall|d: HexDirection| #[trigger] s.contains(d) by {
        if !s.contains(d) {
            assert(s[0] != d && s[1] != d && s[2] != d && s[3] != d && s[4] != d && s[5] != d);
            assert(s[0] != s[1] && s[0] != s[2] && s[0] != s[3] && s[0] != s[4] && s[0] != s[5]);
            assert(s[1] != s[2] && s[1] != s[3] && s[1] != s[4] && s[1] != s[5]);
            assert(s[2] != s[3] && s[2] != s[4] && s[2] != s[5]);
            assert(s[3] != s[4] && s[3] != s[5]);
            assert(s[4] != s[5]);
        }
    }
}

fn slot_at(width: usize, height: usize, h: HexCoord) -> (i: usize)
    requires
        width * height <= usize::MAX,
        0 <= h.q < width,
        0 <= h.r < height,
    ensures
        i == slot_in(width, h),
        i < width * height,
{
    proof {
        lemma_slot(width, height, h);
    }
    h.r as usize * width + h.q as usize
}

proof fn lemma_slot(width: usize, height: usize, h: HexCoord)
    requires
        0 <= h.q < width,
        0 <= h.r < height,
    ensures
        0 <= slot_in(width, h) < width * height,
        0 <= h.r * width <= width * height,
{
    assert(0 <= h.r * width && h.r * width + h.q < width * height) by (nonlinear_arith)
        requires
            0 <= h.q < width,
            0 <= h.r < height,
    ;
}

proof fn lemma_slots_differ(width: usize, a: HexCoord, b: HexCoord)
    requires
        0 <= a.q < width,
        0 <= b.q < width,
        a != b,
    ensures
        slot_in(width, a) != slot_in(width, b),
{
    if a.r != b.r {
        assert(a.r * width + a.q != b.r * width + b.q) by (nonlinear_arith)
            requires
                0 <= a.q < width,
                0 <= b.q < width,
                a.r != b.r,
        ;
    }
}

/// Different hexes of one map are no more than the map has hexes.
pub proof fn lemma_hexes_fit(g: &HexGrid, s: Seq<HexCoord>)
    requires
        s.no_duplicates(),
        forall|i: int| 0 <= i < s.len() ==> g.on_map(#[trigger] s[i]),
    ensures
        s.len() <= g.columns() * g.rows(),
{
    let n = g.columns() * g.rows();
    let slots = Seq::new(s.len(), |i: int| slot_in(g.width, s[i]));
    assert forall|i: int| 0 <= i < slots.len() implies 0 <= #[trigger] slots[i] < n by {
        lemma_slot(g.width, g.height, s[i]);
    }
    assert forall|i: int, j: int| 0 <= i < slots.len() && 0 <= j < slots.len() && i != j implies slots[i]
        != slots[j] by {
        lemma_slots_differ(g.width, s[i], s[j]);
    }
    slots.unique_seq_to_set();
    lemma_int_range(0, n as int);
    assert(slots.to_set().subset_of(set_int_range(0, n as int))) by {
        assert forall|x: int| slots.to_set().contains(x) implies set_int_range(0, n as int).contains(
            x,
        ) by {
            let i = choose|i: int| 0 <= i < slots.len() && slots[i] == x;
        }
    }
    lemma_len_subset(slots.to_set(), set_int_range(0, n as int));
}

/// A neighbour is listed exactly if it lies one step away, and none twice.
pub proof fn lemma_neighbours(order: Seq<HexDirection>, h: HexCoord, k: nat)
    requires
        full_compass(order),
        k <= 6,
    ensures
        forall|n: HexCoord|
            #![trigger neighbours_upto(order, h, k).contains(n)]
            neighbours_upto(order, h, k).contains(n) <==> exists|i: int|
                0 <= i < k && #[trigger] neighbour(h, order[i]) == Some(n),
        neighbours_upto(order, h, k).no_duplicates(),
    decreases k,
{
    if k > 0 {
        lemma_neighbours(order, h, (k - 1) as nat);
        let rest = neighbours_upto(order, h, (k - 1) as nat);
        let all = neighbours_upto(order, h, k);
        assert forall|n: HexCoord| all.contains(n) <==> exists|i: int|
            0 <= i < k && #[trigger] neighbour(h, order[i]) == Some(n) by {
            if all.contains(n) {
                let j = choose|j: int| 0 <= j < all.len() && all[j] == n;
                if j < rest.len() {
                    assert(rest[j] == n);
                    assert(rest.contains(n));
                } else {
                    assert(neighbour(h, order[k - 1]) == Some(n));
                }
            }
            if exists|i: int| 0 <= i < k && #[trigger] neighbour(h, order[i]) == Some(n) {
                let i = choose|i: int| 0 <= i < k && #[trigger] neighbour(h, order[i]) == Some(n);
                if i < k - 1 {
                    assert(rest.contains(n));
                    let j = choose|j: int| 0 <= j < rest.len() && rest[j] == n;
                    assert(all[j] == n);
                } else {
                    assert(all.last() == n);
                }
            }
        }
        assert(all.no_duplicates()) by {
            match neighbour(h, order[k - 1]) {
                Some(n) => {
                    if rest.contains(n) {
                        let i = choose|i: int|
                            0 <= i < k - 1 && #[trigger] neighbour(h, order[i]) == Some(n);
                        assert(order[i] == order[k - 1]);
                    }
                },
                None => {},
            }
        }
    }
}

/// Of different hexes the passable ones are listed, none twice.
pub proof fn lemma_open(g: &HexGrid, s: Seq<HexCoord>, k: nat)
    requires
        s.no_duplicates(),
        k <= s.len(),
    ensures
        forall|n: HexCoord|
            #![trigger open_upto(g, s, k).contains(n)]
            #![trigger s.take(k as int).contains(n)]
            open_upto(g, s, k).contains(n) <==> s.take(k as int).contains(n) && g.open_ground(n),
        open_upto(g, s, k).no_duplicates(),
    decreases k,
{
    if k > 0 {
        lemma_open(g, s, (k - 1) as nat);
        let rest = open_upto(g, s, (k - 1) as nat);
        let all = open_upto(g, s, k);
        assert forall|n: HexCoord| all.contains(n) <==> s.take(k as int).contains(n) && g.open_ground(
            n,
        ) by {
            let t = s.take(k as int);
            let u = s.take(k - 1);
            if all.contains(n) {
                let j = choose|j: int| 0 <= j < all.len() && all[j] == n;
                if j < rest.len() {
                    assert(rest[j] == n);
                    assert(rest.contains(n));
                    assert(u.contains(n));
                    let i = choose|i: int| 0 <= i < u.len() && u[i] == n;
                    assert(t[i] == n);
                } else {
                    assert(t[k - 1] == n);
                }
            }
            if t.contains(n) && g.open_ground(n) {
                let i = choose|i: int| 0 <= i < t.len() && t[i] == n;
                if i < k - 1 {
                    assert(u[i] == n);
                    assert(rest.contains(n));
                    let j = choose|j: int| 0 <= j < rest.len() && rest[j] == n;
                    assert(all[j] == n);
                } else {
                    assert(all.last() == n);
                }
            }
        }
        assert(all.no_duplicates()) by {
            if g.open_ground(s[k - 1]) && rest.contains(s[k - 1]) {
                let u = s.take(k - 1);
                let i = choose|i: int| 0 <= i < u.len() && u[i] == s[k - 1];
                assert(s[i] == s[k - 1]);
            }
        }
    } else {
        assert(s.take(0) =~= Seq::<HexCoord>::empty());
    }
}

/// The exits of a hex are exactly the passable hexes one step away from it,
/// and none is listed twice.
pub proof fn law_exits_are_the_passable_neighbours(g: &HexGrid, h: HexCoord, n: HexCoord)
    requires
        full_compass(g.order()),
    ensures
        g.exits(h).contains(n) <==> hex_distance(h, n) == 1 && g.open_ground(n),
        g.exits(h).no_duplicates(),
{
    lemma_neighbours(g.order(), h, 6);
    let s = g.around(h);
    lemma_open(g, s, s.len());
    assert(s.take(s.len() as int) =~= s);
    crate::hex::law_neighbours_are_one_step_apart(h, n);
    if hex_distance(h, n) == 1 && g.open_ground(n) {
        let d = choose|d: HexDirection| #[trigger] crate::hex::is_step(h, d, n);
        assert(g.order().contains(d));
        let i = choose|i: int| 0 <= i < g.order().len() && g.order()[i] == d;
        assert(neighbour(h, g.order()[i]) == Some(n));
        assert(s.contains(n));
    }
    if s.contains(n) {
        let i = choose|i: int| 0 <= i < 6 && #[trigger] neighbour(h, g.order()[i]) == Some(n);
        assert(crate::hex::is_step(h, g.order()[i], n));
    }
}

impl HexMarks {
    /// Whether it is a set of hexes of maps of the size of `g`.
    pub closed spec fn fits(&self, g: &HexGrid) -> bool {
        &&& self.width == g.width
        &&& self.height == g.height
        &&& self.width <= i32::MAX
        &&& self.height <= i32::MAX
        &&& self.width * self.height <= usize::MAX
        &&& self.marks@.len() == self.width * self.height
    }

    /// Whether the hex is in the set.
    pub closed spec fn holds(&self, h: HexCoord) -> bool {
        0 <= h.q < self.width && 0 <= h.r < self.height && self.marks@[slot_in(self.width, h)]
    }

    /// The empty set of hexes of a map.
    pub fn new(g: &HexGrid) -> (m: HexMarks)
        ensures
            m.fits(g),
            forall|h: HexCoord| !m.holds(h),
    {
        proof {
            use_type_invariant(g);
        }
        let n: usize = g.cells.len();
        let mut marks: Vec<bool> = Vec::new();
        while marks.len() < n
            invariant
                marks@.len() <= n,
                forall|i: int| 0 <= i < marks@.len() ==> !marks@[i],
            decreases n - marks@.len(),
        {
            marks.push(false);
        }
        let m = HexMarks { width: g.width, height: g.height, marks };
        assert forall|h: HexCoord| !m.holds(h) by {
            if 0 <= h.q < m.width && 0 <= h.r < m.height {
                lemma_slot(m.width, m.height, h);
            }
        }
        m
    }

    /// Whether the hex is in the set.
    pub fn has(&self, g: &HexGrid, h: HexCoord) -> (b: bool)
        requires
            self.fits(g),
        ensures
            b == self.holds(h),
    {
        if h.q < 0 || h.r < 0 || h.q as usize >= self.width || h.r as usize >= self.height {
            return false;
        }
        proof {
            lemma_slot(self.width, self.height, h);
        }
        self.marks[slot_at(self.width, self.height, h)]
    }

    /// Puts a hex of the map into the set.
    pub fn add(&mut self, g: &HexGrid, h: HexCoord)
        requires
            old(self).fits(g),
            g.on_map(h),
        ensures
            final(self).fits(g),
            forall|o: HexCoord| final(self).holds(o) == (old(self).holds(o) || o == h),
    {
        proof {
            lemma_slot(self.width, self.height, h);
            assert forall|o: HexCoord| 0 <= o.q < self.width && 0 <= o.r < self.height implies 0
                <= slot_in(self.width, o) < self.marks@.len() && (o != h ==> slot_in(self.width, o)
                != slot_in(self.width, h)) by {
                lemma_slot(self.width, self.height, o);
                if o != h {
                    lemma_slots_differ(self.width, o, h);
                }
            }
        }
        let i: usize = slot_at(self.width, self.height, h);
        self.marks.set(i, true);
    }
}

} // verus!
