//! The grid store: a dense row-major tile array, one index list per tracked
//! variant, and the hex topology over it.
//!
//! A cell at column `x` and row `y` lives at index `y * width + x`. Each index
//! list holds exactly the cells of its variant, without repeats; a slot table
//! records where each tracked cell sits in its list, so that a cell leaves its
//! list in constant time.
//!
//! Adjacency uses offset coordinates with odd rows shifted half a cell to the
//! right: a cell borders the two cells beside it in its row, and two cells in
//! each of the rows above and below, at columns `x - 1` and `x` on an even row,
//! at `x` and `x + 1` on an odd one.
use vstd::prelude::*;
use crate::types::{HexTile, TileKind};

verus! {

/// Largest width or height: coordinates travel as `i32` on the wire.
pub const MAX_SIDE: usize = 0x8000_0000;

/// Why a grid operation was refused.
#[derive(PartialEq, Eq, Structural, Debug, Clone, Copy)]
pub enum GridError {
    /// The position lies outside `[0, width) x [0, height)`.
    OutOfBounds,
}

/// Whether a variant has an index list.
pub open spec fn is_tracked(k: TileKind) -> bool {
    k != TileKind::Wild
}

/// Whether cell `(a, b)` borders cell `(x, y)`.
pub open spec fn hex_adjacent(x: int, y: int, a: int, b: int) -> bool {
    ||| b == y && (a == x - 1 || a == x + 1)
    ||| (b == y - 1 || b == y + 1) && (if y % 2 == 0 {
        a == x - 1 || a == x
    } else {
        a == x || a == x + 1
    })
}

/// The indices of `tiles` whose variant is `k`.
pub open spec fn members(tiles: Seq<HexTile>, k: TileKind) -> Set<int> {
    Set::new(|i: int| 0 <= i < tiles.len() && tiles[i].spec_kind() == k)
}

/// `list` holds exactly the indices of `tiles` whose variant is `k`, each once.
pub open spec fn list_exact(list: Seq<usize>, tiles: Seq<HexTile>, k: TileKind) -> bool {
    &&& list.no_duplicates()
    &&& forall|i: usize| #[trigger]
        list.contains(i) <==> (i < tiles.len() && tiles[i as int].spec_kind() == k)
}

/// `slots` places each member of `m` in `list`, and `list` holds only members.
spec fn slots_ok(list: Seq<usize>, slots: Seq<usize>, m: Set<int>, n: int) -> bool {
    &&& slots.len() == n
    &&& forall|j: int|
        0 <= j < list.len() ==> 0 <= #[trigger] list[j] < n && m.contains(list[j] as int)
            && slots[list[j] as int] == j
    &&& forall|v: int|
        0 <= v < n && #[trigger] m.contains(v) ==> slots[v] < list.len() && list[slots[v] as int]
            == v
}

proof fn lemma_slots_exact(list: Seq<usize>, slots: Seq<usize>, tiles: Seq<HexTile>, k: TileKind)
    requires
        slots_ok(list, slots, members(tiles, k), tiles.len() as int),
    ensures
        list_exact(list, tiles, k),
{
    assert forall|a: int, b: int| 0 <= a < list.len() && 0 <= b < list.len() && a != b implies list[a]
        != list[b] by {
        assert(slots[list[a] as int] == a);
        assert(slots[list[b] as int] == b);
    }
    assert forall|i: usize| #[trigger]
        list.contains(i) <==> (i < tiles.len() && tiles[i as int].spec_kind() == k) by {
        if list.contains(i) {
            let j = choose|j: int| 0 <= j < list.len() && list[j] == i;
            assert(members(tiles, k).contains(list[j] as int));
        }
        if i < tiles.len() && tiles[i as int].spec_kind() == k {
            assert(members(tiles, k).contains(i as int));
            assert(list[slots[i as int] as int] == i);
        }
    }
}

/// Once cell `i`, of kind `gone`, has left its list (the slots `s0` became
/// `s1`), every list `l` of kind `k` places the members of `k` but `i`.
proof fn lemma_remove_stage(
    l: Seq<usize>,
    l0: Seq<usize>,
    s0: Seq<usize>,
    s1: Seq<usize>,
    t: Seq<HexTile>,
    k: TileKind,
    gone: TileKind,
    i: int,
)
    requires
        0 <= i < t.len(),
        t[i].spec_kind() == gone,
        k != gone ==> l == l0 && slots_ok(l0, s0, members(t, k), t.len() as int),
        k == gone ==> slots_ok(l, s1, members(t, k).remove(i), t.len() as int),
        s1.len() == t.len(),
        forall|v: int| 0 <= v < t.len() && !members(t, gone).contains(v) ==> s1[v] == s0[v],
    ensures
        slots_ok(l, s1, members(t, k).remove(i), t.len() as int),
{
    if k != gone {
        assert forall|v: int| 0 <= v < t.len() && members(t, k).contains(v) implies s1[v] == s0[v] by {
            assert(!members(t, gone).contains(v));
        }
        lemma_slots_frame(l, s0, s1, members(t, k), t.len() as int);
        assert(members(t, k).remove(i) =~= members(t, k));
    }
}

/// Once cell `i`, of kind `new`, has joined its list (the slots `s1` became
/// `s2`), every list `l` of kind `k` places all the members of `k`.
proof fn lemma_add_stage(
    l: Seq<usize>,
    l1: Seq<usize>,
    s1: Seq<usize>,
    s2: Seq<usize>,
    t: Seq<HexTile>,
    k: TileKind,
    new: TileKind,
    i: int,
)
    requires
        0 <= i < t.len(),
        t[i].spec_kind() == new,
        k != new ==> l == l1 && slots_ok(l1, s1, members(t, k).remove(i), t.len() as int),
        k == new ==> slots_ok(l, s2, members(t, k).remove(i).insert(i), t.len() as int),
        s2.len() == t.len(),
        forall|v: int| 0 <= v < t.len() && v != i ==> s2[v] == s1[v],
    ensures
        slots_ok(l, s2, members(t, k), t.len() as int),
{
    let mw = members(t, k).remove(i);
    if k == new {
        assert(members(t, k) =~= mw.insert(i));
    } else {
        assert(members(t, k) =~= mw);
        lemma_slots_frame(l, s1, s2, mw, t.len() as int);
    }
}

/// `slots_ok` depends only on the slots of the members.
proof fn lemma_slots_frame(list: Seq<usize>, s: Seq<usize>, s2: Seq<usize>, m: Set<int>, n: int)
    requires
        slots_ok(list, s, m, n),
        s2.len() == n,
        forall|v: int| 0 <= v < n && m.contains(v) ==> s2[v] == s[v],
    ensures
        slots_ok(list, s2, m, n),
{
}

/// Takes `i` out of `list`, moving the last entry into its place.
fn list_remove(list: &mut Vec<usize>, slots: &mut Vec<usize>, i: usize, Ghost(m): Ghost<Set<int>>)
    requires
        slots_ok(old(list)@, old(slots)@, m, old(slots)@.len() as int),
        m.contains(i as int),
        i < old(slots)@.len(),
    ensures
        slots_ok(final(list)@, final(slots)@, m.remove(i as int), old(slots)@.len() as int),
        forall|v: int| 0 <= v < old(slots)@.len() && !m.contains(v) ==> final(slots)@[v] == old(slots)@[v],
{
    let ghost n = slots@.len() as int;
    let ghost l0 = list@;
    let ghost s0 = slots@;
    let k = slots[i];
    let last = list.len() - 1;
    let moved = list[last];
    list.swap_remove(k);
    if k < last {
        slots.set(moved, k);
    }
    let ghost m2 = m.remove(i as int);
    assert forall|j: int| 0 <= j < list@.len() implies 0 <= #[trigger] list@[j] < n && m2.contains(
        list@[j] as int,
    ) && slots@[list@[j] as int] == j by {
        if j == k {
            assert(list@[j] == moved);
            assert(s0[moved as int] == last);
        } else {
            assert(list@[j] == l0[j]);
            assert(s0[l0[j] as int] == j);
            assert(s0[moved as int] == last);
        }
    }
    assert forall|v: int| 0 <= v < n && #[trigger] m2.contains(v) implies slots@[v] < list@.len()
        && list@[slots@[v] as int] == v by {
        assert(l0[s0[v] as int] == v);
        if v == moved as int {
            assert(s0[v] == last);
        } else {
            assert(s0[v] != last);
            assert(s0[v] != k);
        }
    }
}

/// Appends `i` to `list`.
fn list_add(list: &mut Vec<usize>, slots: &mut Vec<usize>, i: usize, Ghost(m): Ghost<Set<int>>)
    requires
        slots_ok(old(list)@, old(slots)@, m, old(slots)@.len() as int),
        !m.contains(i as int),
        i < old(slots)@.len(),
    ensures
        slots_ok(final(list)@, final(slots)@, m.insert(i as int), old(slots)@.len() as int),
        forall|v: int| 0 <= v < old(slots)@.len() && v != i ==> final(slots)@[v] == old(slots)@[v],
{
    let ghost n = slots@.len() as int;
    let ghost l0 = list@;
    let k = list.len();
    list.push(i);
    slots.set(i, k);
    let ghost m2 = m.insert(i as int);
    assert forall|j: int| 0 <= j < list@.len() implies 0 <= #[trigger] list@[j] < n && m2.contains(
        list@[j] as int,
    ) && slots@[list@[j] as int] == j by {
        if j < l0.len() {
            assert(list@[j] == l0[j]);
            assert(m.contains(l0[j] as int));
        }
    }
}

/// The world: a `width` by `height` array of tiles and its index lists.
pub struct GridState {
    pub width: usize,
    pub height: usize,
    /// The tiles in row-major order.
    pub tiles: Vec<HexTile>,
    /// The cells that hold slime.
    pub slime_tiles: Vec<usize>,
    /// The cells that hold a mine.
    pub mine_tiles: Vec<usize>,
    /// The cells that hold a turret.
    pub turret_tiles: Vec<usize>,
    /// For each tracked cell, its place in its variant's list.
    pub slots: Vec<usize>,
}

impl GridState {
    /// The index list of variant `k` (empty for the untracked `Wild`).
    pub open spec fn list_of(&self, k: TileKind) -> Seq<usize> {
        match k {
            TileKind::Slime => self.slime_tiles@,
            TileKind::Mine => self.mine_tiles@,
            TileKind::Turret => self.turret_tiles@,
            TileKind::Wild => Seq::empty(),
        }
    }

    pub open spec fn in_bounds(&self, x: int, y: int) -> bool {
        0 <= x < self.width && 0 <= y < self.height
    }

    pub open spec fn index_of(&self, x: int, y: int) -> int {
        y * self.width + x
    }

    pub open spec fn tile_at(&self, x: int, y: int) -> HexTile {
        self.tiles@[self.index_of(x, y)]
    }

    /// The grid's invariant: sizes agree, and every index list is exact.
    pub open spec fn wf(&self) -> bool {
        &&& self.width <= MAX_SIDE
        &&& self.height <= MAX_SIDE
        &&& self.width * self.height <= usize::MAX
        &&& self.tiles@.len() == self.width * self.height
        &&& list_exact(self.slime_tiles@, self.tiles@, TileKind::Slime)
        &&& list_exact(self.mine_tiles@, self.tiles@, TileKind::Mine)
        &&& list_exact(self.turret_tiles@, self.tiles@, TileKind::Turret)
        &&& self.slots_consistent()
    }

    /// The slot table agrees with the index lists.
    pub closed spec fn slots_consistent(&self) -> bool {
        let n = self.tiles@.len() as int;
        &&& slots_ok(self.slime_tiles@, self.slots@, members(self.tiles@, TileKind::Slime), n)
        &&& slots_ok(self.mine_tiles@, self.slots@, members(self.tiles@, TileKind::Mine), n)
        &&& slots_ok(self.turret_tiles@, self.slots@, members(self.tiles@, TileKind::Turret), n)
    }
}

/// Distinct in-bounds cells have distinct indices.
pub proof fn lemma_index_injective(w: int, h: int, x: int, y: int, a: int, b: int)
    requires
        0 <= x < w,
        0 <= y < h,
        0 <= a < w,
        0 <= b < h,
        y * w + x == b * w + a,
    ensures
        x == a,
        y == b,
{
    if y < b {
        assert(y * w + w <= b * w) by (nonlinear_arith)
            requires
                y < b,
                0 <= w,
        ;
    } else if b < y {
        assert(b * w + w <= y * w) by (nonlinear_arith)
            requires
                b < y,
                0 <= w,
        ;
    }
}

/// An in-bounds cell's index is below `w * h`.
pub proof fn lemma_index_in_range(w: int, h: int, x: int, y: int)
    requires
        0 <= x < w,
        0 <= y < h,
    ensures
        0 <= y * w + x < w * h,
{
    assert(0 <= y * w && y * w + w <= h * w) by (nonlinear_arith)
        requires
            0 <= y < h,
            0 <= w,
    ;
    assert(h * w == w * h) by (nonlinear_arith);
}

impl GridState {
    /// A `width` by `height` grid whose every cell holds `starter_tile`.
    pub fn new(width: usize, height: usize, starter_tile: HexTile) -> (r: Self)
        requires
            width <= MAX_SIDE,
            height <= MAX_SIDE,
            width * height <= usize::MAX,
        ensures
            r.wf(),
            r.width == width,
            r.height == height,
            r.tiles@.len() == width * height,
            forall|i: int| 0 <= i < r.tiles@.len() ==> #[trigger] r.tiles@[i] == starter_tile,
            is_tracked(starter_tile.spec_kind()) ==> r.list_of(starter_tile.spec_kind()).len() == width
                * height,
            forall|k: TileKind| k != starter_tile.spec_kind() ==> #[trigger] r.list_of(k).len() == 0,
    {
        let n = width * height;
        let kind = starter_tile.kind();
        let tracked_kind = kind != TileKind::Wild;
        let mut tiles: Vec<HexTile> = Vec::new();
        let mut slots: Vec<usize> = Vec::new();
        let mut list: Vec<usize> = Vec::new();
        let mut i: usize = 0;
        while i < n
            invariant
                i <= n,
                tiles@.len() == i,
                slots@.len() == i,
                forall|j: int| 0 <= j < i ==> #[trigger] tiles@[j] == starter_tile,
                forall|j: int| 0 <= j < i ==> #[trigger] slots@[j] == j,
                list@.len() == if tracked_kind { i as int } else { 0 },
                forall|j: int| 0 <= j < list@.len() ==> #[trigger] list@[j] == j,
            decreases n - i,
        {
            tiles.push(starter_tile.duplicate());
            slots.push(i);
            if tracked_kind {
                list.push(i);
            }
            i = i + 1;
        }
        let ghost t = tiles@;
        let ghost full = list@;
        proof {
            assert forall|k: TileKind| is_tracked(k) implies slots_ok(
                if k == kind { full } else { Seq::<usize>::empty() },
                slots@,
                members(t, k),
                n as int,
            ) by {
                let l = if k == kind { full } else { Seq::<usize>::empty() };
                if k == kind && tracked_kind {
                    assert forall|v: int| 0 <= v < n && #[trigger] members(t, k).contains(v) implies slots@[v]
                        < l.len() && l[slots@[v] as int] == v by {}
                } else {
                    assert forall|v: int| 0 <= v < n implies !#[trigger] members(t, k).contains(v) by {
                        assert(t[v] == starter_tile);
                    }
                }
            }
        }
        let empty_a: Vec<usize> = Vec::new();
        let empty_b: Vec<usize> = Vec::new();
        let r = match kind {
            TileKind::Slime => GridState {
                width,
                height,
                tiles,
                slime_tiles: list,
                mine_tiles: empty_a,
                turret_tiles: empty_b,
                slots,
            },
            TileKind::Mine => GridState {
                width,
                height,
                tiles,
                slime_tiles: empty_a,
                mine_tiles: list,
                turret_tiles: empty_b,
                slots,
            },
            TileKind::Turret => GridState {
                width,
                height,
                tiles,
                slime_tiles: empty_a,
                mine_tiles: empty_b,
                turret_tiles: list,
                slots,
            },
            // Wild is untracked, so `list` stayed empty.
            TileKind::Wild => GridState {
                width,
                height,
                tiles,
                slime_tiles: list,
                mine_tiles: empty_a,
                turret_tiles: empty_b,
                slots,
            },
        };
        proof {
            assert(slots_ok(r.slime_tiles@, r.slots@, members(t, TileKind::Slime), n as int));
            assert(slots_ok(r.mine_tiles@, r.slots@, members(t, TileKind::Mine), n as int));
            assert(slots_ok(r.turret_tiles@, r.slots@, members(t, TileKind::Turret), n as int));
            lemma_slots_exact(r.slime_tiles@, r.slots@, t, TileKind::Slime);
            lemma_slots_exact(r.mine_tiles@, r.slots@, t, TileKind::Mine);
            lemma_slots_exact(r.turret_tiles@, r.slots@, t, TileKind::Turret);
        }
        r
    }

    /// The array index of cell `(x, y)`: `y * width + x`.
    pub fn get_index(&self, x: u32, y: u32) -> (r: usize)
        requires
            self.wf(),
            self.in_bounds(x as int, y as int),
        ensures
            r == self.index_of(x as int, y as int),
            r < self.tiles@.len(),
    {
        proof {
            lemma_index_in_range(self.width as int, self.height as int, x as int, y as int);
        }
        (y as usize * self.width) + x as usize
    }

    /// The cell at array index `i`, as `(column, row)`.
    pub fn get_coords(&self, i: usize) -> (r: (u32, u32))
        requires
            self.wf(),
            i < self.tiles@.len(),
        ensures
            self.in_bounds(r.0 as int, r.1 as int),
            self.index_of(r.0 as int, r.1 as int) == i,
            r.0 as int == i as int % self.width as int,
            r.1 as int == i as int / self.width as int,
    {
        let x = i % self.width;
        let y = i / self.width;
        proof {
            let w = self.width as int;
            let h = self.height as int;
            vstd::arithmetic::div_mod::lemma_fundamental_div_mod(i as int, w);
            vstd::arithmetic::mul::lemma_mul_is_commutative(y as int, w);
            assert(y * w + x == i);
            if y >= h {
                assert(y * w >= h * w) by (nonlinear_arith)
                    requires
                        y >= h,
                        w >= 0,
                ;
                assert(h * w == w * h) by (nonlinear_arith);
            }
        }
        (x as u32, y as u32)
    }

    /// The tile at `(x, y)`, or `None` outside the grid.
    pub fn get_tile(&self, x: u32, y: u32) -> (r: Option<&HexTile>)
        requires
            self.wf(),
        ensures
            r.is_some() == self.in_bounds(x as int, y as int),
            r.is_some() ==> *r.unwrap() == self.tile_at(x as int, y as int),
    {
        if (x as usize) < self.width && (y as usize) < self.height {
            let i = self.get_index(x, y);
            Some(&self.tiles[i])
        } else {
            None
        }
    }

    /// Replaces the tile at `(x, y)` and moves the cell between index lists.
    /// Outside the grid nothing changes and `OutOfBounds` comes back.
    pub fn set_tile(&mut self, x: u32, y: u32, new_tile: HexTile) -> (r: Result<(), GridError>)
        requires
            old(self).wf(),
        ensures
            final(self).wf(),
            final(self).width == old(self).width,
            final(self).height == old(self).height,
            r is Ok <==> old(self).in_bounds(x as int, y as int),
            r is Err ==> r == Err::<(), GridError>(GridError::OutOfBounds) && *final(self) == *old(self),
            r is Ok ==> final(self).tiles@ == old(self).tiles@.update(
                old(self).index_of(x as int, y as int),
                new_tile,
            ),
            r is Ok ==> final(self).tile_at(x as int, y as int) == new_tile,
            r is Ok ==> forall|k: TileKind|
                is_tracked(k) ==> (#[trigger] final(self).list_of(k).contains(
                    old(self).index_of(x as int, y as int) as usize,
                ) <==> k == new_tile.spec_kind()),
    {
        if !((x as usize) < self.width && (y as usize) < self.height) {
            return Err(GridError::OutOfBounds);
        }
        let index = self.get_index(x, y);
        let old_kind = self.tiles[index].kind();
        let new_kind = new_tile.kind();
        self.unregister_tile(index, old_kind);
        let ghost t0 = self.tiles@;
        self.tiles.set(index, new_tile);
        proof {
            assert forall|k: TileKind| #[trigger] members(self.tiles@, k).remove(index as int) =~= members(
                t0,
                k,
            ).remove(index as int) by {}
        }
        self.register_tile(index, new_kind);
        Ok(())
    }

    /// Every list places the members of its kind, all but cell `i`.
    spec fn placed_without(&self, i: int) -> bool {
        let n = self.tiles@.len() as int;
        &&& slots_ok(self.slime_tiles@, self.slots@, members(self.tiles@, TileKind::Slime).remove(i), n)
        &&& slots_ok(self.mine_tiles@, self.slots@, members(self.tiles@, TileKind::Mine).remove(i), n)
        &&& slots_ok(self.turret_tiles@, self.slots@, members(self.tiles@, TileKind::Turret).remove(i), n)
    }

    /// Takes cell `i`, of kind `kind`, out of its index list.
    fn unregister_tile(&mut self, i: usize, kind: TileKind)
        requires
            old(self).wf(),
            i < old(self).tiles@.len(),
            old(self).tiles@[i as int].spec_kind() == kind,
        ensures
            final(self).placed_without(i as int),
            final(self).width == old(self).width,
            final(self).height == old(self).height,
            final(self).tiles@ == old(self).tiles@,
    {
        let ghost t = self.tiles@;
        proof {
            assert(members(t, kind).contains(i as int));
        }
        match kind {
            TileKind::Slime => list_remove(&mut self.slime_tiles, &mut self.slots, i, Ghost(members(t, kind))),
            TileKind::Mine => list_remove(&mut self.mine_tiles, &mut self.slots, i, Ghost(members(t, kind))),
            TileKind::Turret => list_remove(&mut self.turret_tiles, &mut self.slots, i, Ghost(members(t, kind))),
            TileKind::Wild => {},
        }
        proof {
            let s0 = old(self).slots@;
            let s1 = self.slots@;
            lemma_remove_stage(self.slime_tiles@, old(self).slime_tiles@, s0, s1, t, TileKind::Slime, kind, i as int);
            lemma_remove_stage(self.mine_tiles@, old(self).mine_tiles@, s0, s1, t, TileKind::Mine, kind, i as int);
            lemma_remove_stage(self.turret_tiles@, old(self).turret_tiles@, s0, s1, t, TileKind::Turret, kind, i as int);
        }
    }

    /// Puts cell `i`, now of kind `kind`, into its index list.
    fn register_tile(&mut self, i: usize, kind: TileKind)
        requires
            old(self).placed_without(i as int),
            old(self).width <= MAX_SIDE,
            old(self).height <= MAX_SIDE,
            old(self).width * old(self).height <= usize::MAX,
            old(self).tiles@.len() == old(self).width * old(self).height,
            i < old(self).tiles@.len(),
            old(self).tiles@[i as int].spec_kind() == kind,
        ensures
            final(self).wf(),
            final(self).width == old(self).width,
            final(self).height == old(self).height,
            final(self).tiles@ == old(self).tiles@,
    {
        let ghost t = self.tiles@;
        proof {
            assert(!members(t, kind).remove(i as int).contains(i as int));
        }
        match kind {
            TileKind::Slime => list_add(&mut self.slime_tiles, &mut self.slots, i, Ghost(members(t, kind).remove(i as int))),
            TileKind::Mine => list_add(&mut self.mine_tiles, &mut self.slots, i, Ghost(members(t, kind).remove(i as int))),
            TileKind::Turret => list_add(&mut self.turret_tiles, &mut self.slots, i, Ghost(members(t, kind).remove(i as int))),
            TileKind::Wild => {},
        }
        proof {
            let s1 = old(self).slots@;
            let s2 = self.slots@;
            lemma_add_stage(self.slime_tiles@, old(self).slime_tiles@, s1, s2, t, TileKind::Slime, kind, i as int);
            lemma_add_stage(self.mine_tiles@, old(self).mine_tiles@, s1, s2, t, TileKind::Mine, kind, i as int);
            lemma_add_stage(self.turret_tiles@, old(self).turret_tiles@, s1, s2, t, TileKind::Turret, kind, i as int);
            lemma_slots_exact(self.slime_tiles@, self.slots@, t, TileKind::Slime);
            lemma_slots_exact(self.mine_tiles@, self.slots@, t, TileKind::Mine);
            lemma_slots_exact(self.turret_tiles@, self.slots@, t, TileKind::Turret);
        }
    }

    /// Appends `(a, b)` to `r` when it lies inside the grid.
    fn push_if_inside(&self, r: &mut Vec<(u32, u32)>, a: i64, b: i64)
        requires
            self.wf(),
        ensures
            final(r)@ == if self.in_bounds(a as int, b as int) {
                old(r)@.push((a as u32, b as u32))
            } else {
                old(r)@
            },
            forall|q: (u32, u32)| old(r)@.contains(q) ==> #[trigger] final(r)@.contains(q),
            self.in_bounds(a as int, b as int) ==> final(r)@.contains((a as u32, b as u32)),
    {
        if 0 <= a && 0 <= b && (a as u64) < (self.width as u64) && (b as u64) < (self.height as u64) {
            let ghost r0 = r@;
            r.push((a as u32, b as u32));
            proof {
                assert(r@[r0.len() as int] == (a as u32, b as u32));
                assert forall|q: (u32, u32)| r0.contains(q) implies #[trigger] r@.contains(q) by {
                    let j = choose|j: int| 0 <= j < r0.len() && r0[j] == q;
                    assert(r@[j] == q);
                }
            }
        }
    }

    /// The cells bordering `(x, y)` that lie inside the grid, each once.
    pub fn get_neighbors(&self, x: u32, y: u32) -> (r: Vec<(u32, u32)>)
        requires
            self.wf(),
        ensures
            r@.len() <= 6,
            r@.no_duplicates(),
            forall|k: int|
                0 <= k < r@.len() ==> self.in_bounds(#[trigger] r@[k].0 as int, r@[k].1 as int)
                    && hex_adjacent(x as int, y as int, r@[k].0 as int, r@[k].1 as int) && r@[k]
                    != (x, y),
            forall|a: u32, b: u32|
                self.in_bounds(a as int, b as int) && hex_adjacent(x as int, y as int, a as int, b as int)
                    ==> #[trigger] r@.contains((a, b)),
    {
        let xi = x as i64;
        let yi = y as i64;
        let lo: i64 = if y % 2 == 0 { xi - 1 } else { xi };
        let hi: i64 = lo + 1;
        let mut r: Vec<(u32, u32)> = Vec::new();
        self.push_if_inside(&mut r, xi - 1, yi);
        self.push_if_inside(&mut r, xi + 1, yi);
        self.push_if_inside(&mut r, lo, yi - 1);
        self.push_if_inside(&mut r, hi, yi - 1);
        self.push_if_inside(&mut r, lo, yi + 1);
        self.push_if_inside(&mut r, hi, yi + 1);
        proof {
            assert forall|a: u32, b: u32|
                self.in_bounds(a as int, b as int) && hex_adjacent(x as int, y as int, a as int, b as int)
                    implies #[trigger] r@.contains((a, b)) by {
                if b == y {
                    if a as int == x - 1 {
                        assert(r@.contains(((xi - 1) as u32, yi as u32)));
                    } else {
                        assert(r@.contains(((xi + 1) as u32, yi as u32)));
                    }
                } else if b as int == y - 1 {
                    if a as int == lo {
                        assert(r@.contains((lo as u32, (yi - 1) as u32)));
                    } else {
                        assert(r@.contains((hi as u32, (yi - 1) as u32)));
                    }
                } else {
                    if a as int == lo {
                        assert(r@.contains((lo as u32, (yi + 1) as u32)));
                    } else {
                        assert(r@.contains((hi as u32, (yi + 1) as u32)));
                    }
                }
            }
        }
        r
    }
}


/// At every moment a well-formed grid is in, the index list of each tracked
/// variant holds exactly the cells of that variant, each once.
pub proof fn lemma_index_lists_exact(g: GridState)
    requires
        g.wf(),
    ensures
        forall|k: TileKind| is_tracked(k) ==> (#[trigger] g.list_of(k)).no_duplicates(),
        forall|k: TileKind, i: usize|
            is_tracked(k) ==> (#[trigger] g.list_of(k).contains(i) <==> (i < g.tiles@.len()
                && g.tiles@[i as int].spec_kind() == k)),
{
}

} // verus!
