//! The simulation step: slime spreads onto every bordering cell that is not
//! already a mine, turning it into a fresh mine.
use vstd::prelude::*;
use crate::grid::{hex_adjacent, lemma_index_in_range, lemma_index_injective, GridState};
use crate::types::{fresh_mine, is_fresh_mine, TileKind, TileState};

verus! {

impl GridState {
    /// Some slime cell borders `(x, y)`.
    pub open spec fn borders_slime(&self, x: int, y: int) -> bool {
        exists|sx: int, sy: int|
            self.in_bounds(sx, sy) && #[trigger] self.tile_at(sx, sy) is Slime && hex_adjacent(
                sx,
                sy,
                x,
                y,
            )
    }

    /// One step turns `(x, y)` into a fresh mine: slime borders it and it is
    /// not a mine yet.
    pub open spec fn spreads_to(&self, x: int, y: int) -> bool {
        !(self.tile_at(x, y) is Mine) && self.borders_slime(x, y)
    }
}

/// The `j`-th source cell borders `(x, y)`.
spec fn fed_by(g: GridState, src: Seq<usize>, j: int, x: int, y: int) -> bool {
    hex_adjacent(src[j] as int % g.width as int, src[j] as int / g.width as int, x, y)
}

/// One of the first `k` source cells reaches `(x, y)`, which is no mine.
spec fn reached(g: GridState, src: Seq<usize>, k: int, x: int, y: int) -> bool {
    !(g.tile_at(x, y) is Mine) && exists|j: int| 0 <= j < k && #[trigger] fed_by(g, src, j, x, y)
}

/// As `reached`, counting also the first `m` cells of `nb`.
spec fn reached_in(
    g: GridState,
    src: Seq<usize>,
    k: int,
    nb: Seq<(u32, u32)>,
    m: int,
    x: int,
    y: int,
) -> bool {
    ||| reached(g, src, k, x, y)
    ||| !(g.tile_at(x, y) is Mine) && exists|t: int|
        0 <= t < m && (#[trigger] nb[t]).0 == x && nb[t].1 == y
}

/// Taking in the `k`-th source cell, whose neighbours are `nb`.
proof fn lemma_reached_next(
    g: GridState,
    src: Seq<usize>,
    k: int,
    nb: Seq<(u32, u32)>,
    sx: u32,
    sy: u32,
    x: int,
    y: int,
)
    requires
        g.wf(),
        0 <= k < src.len(),
        g.in_bounds(x, y),
        sx as int == src[k] as int % g.width as int,
        sy as int == src[k] as int / g.width as int,
        forall|t: int|
            0 <= t < nb.len() ==> g.in_bounds(#[trigger] nb[t].0 as int, nb[t].1 as int)
                && hex_adjacent(sx as int, sy as int, nb[t].0 as int, nb[t].1 as int),
        forall|a: u32, b: u32|
            g.in_bounds(a as int, b as int) && hex_adjacent(sx as int, sy as int, a as int, b as int)
                ==> #[trigger] nb.contains((a, b)),
    ensures
        reached(g, src, k + 1, x, y) == reached_in(g, src, k, nb, nb.len() as int, x, y),
{
    if reached(g, src, k + 1, x, y) && !reached(g, src, k, x, y) {
        let j = choose|j: int| 0 <= j < k + 1 && #[trigger] fed_by(g, src, j, x, y);
        assert(j == k);
        assert(nb.contains((x as u32, y as u32)));
        let t = choose|t: int| 0 <= t < nb.len() && nb[t] == (x as u32, y as u32);
        assert(nb[t].0 == x && nb[t].1 == y);
    }
    if reached_in(g, src, k, nb, nb.len() as int, x, y) && !reached(g, src, k, x, y) {
        let t = choose|t: int| 0 <= t < nb.len() && (#[trigger] nb[t]).0 == x && nb[t].1 == y;
        assert(fed_by(g, src, k, x, y));
    }
    if reached(g, src, k, x, y) {
        let j = choose|j: int| 0 <= j < k && #[trigger] fed_by(g, src, j, x, y);
        assert(fed_by(g, src, j, x, y));
    }
}

/// Taking in the `m`-th neighbour changes `reached_in` at that cell alone,
/// and only from false to true.
proof fn lemma_reached_in_step(
    g: GridState,
    src: Seq<usize>,
    k: int,
    nb: Seq<(u32, u32)>,
    m: int,
    x: int,
    y: int,
)
    requires
        0 <= m < nb.len(),
    ensures
        reached_in(g, src, k, nb, m, x, y) ==> reached_in(g, src, k, nb, m + 1, x, y),
        (x, y) != (nb[m].0 as int, nb[m].1 as int) ==> reached_in(g, src, k, nb, m + 1, x, y)
            == reached_in(g, src, k, nb, m, x, y),
        (x, y) == (nb[m].0 as int, nb[m].1 as int) ==> reached_in(g, src, k, nb, m + 1, x, y)
            == !(g.tile_at(x, y) is Mine),
{
    if reached_in(g, src, k, nb, m, x, y) && !reached(g, src, k, x, y) {
        let t = choose|t: int| 0 <= t < m && (#[trigger] nb[t]).0 == x && nb[t].1 == y;
        assert(0 <= t < m + 1 && nb[t].0 == x && nb[t].1 == y);
    }
    if reached_in(g, src, k, nb, m + 1, x, y) && !reached(g, src, k, x, y) && (x, y) != (
    nb[m].0 as int, nb[m].1 as int) {
        let t = choose|t: int| 0 <= t < m + 1 && (#[trigger] nb[t]).0 == x && nb[t].1 == y;
        assert(0 <= t < m && nb[t].0 == x && nb[t].1 == y);
    }
    if (x, y) == (nb[m].0 as int, nb[m].1 as int) && !(g.tile_at(x, y) is Mine) {
        assert(0 <= m < m + 1 && nb[m].0 == x && nb[m].1 == y);
    }
}

/// Once every slime cell has been visited, `reached` is `spreads_to`.
proof fn lemma_reached_all(g: GridState, x: int, y: int)
    requires
        g.wf(),
        g.in_bounds(x, y),
    ensures
        reached(g, g.slime_tiles@, g.slime_tiles@.len() as int, x, y) == g.spreads_to(x, y),
{
    let src = g.slime_tiles@;
    let w = g.width as int;
    if g.borders_slime(x, y) {
        let (sx, sy) = choose|sx: int, sy: int|
            g.in_bounds(sx, sy) && #[trigger] g.tile_at(sx, sy) is Slime && hex_adjacent(sx, sy, x, y);
        let i = g.index_of(sx, sy);
        lemma_index_in_range(w, g.height as int, sx, sy);
        assert(src.contains(i as usize));
        let j = choose|j: int| 0 <= j < src.len() && src[j] == i as usize;
        lemma_coords_of_index(w, sx, sy);
        assert(fed_by(g, src, j, x, y));
    }
    if reached(g, src, src.len() as int, x, y) {
        let j = choose|j: int| 0 <= j < src.len() && #[trigger] fed_by(g, src, j, x, y);
        let i = src[j] as int;
        assert(src.contains(src[j]));
        let sx = i % w;
        let sy = i / w;
        vstd::arithmetic::div_mod::lemma_fundamental_div_mod(i, w);
        vstd::arithmetic::mul::lemma_mul_is_commutative(sy, w);
        vstd::arithmetic::div_mod::lemma_mod_pos_bound(i, w);
        if sy >= g.height {
            assert(sy * w >= g.height * w) by (nonlinear_arith)
                requires
                    sy >= g.height,
                    w >= 0,
            ;
            assert(g.height * w == w * g.height) by (nonlinear_arith);
        }
        vstd::arithmetic::div_mod::lemma_div_pos_is_pos(i, w);
        assert(g.index_of(sx, sy) == i);
        assert(g.tile_at(sx, sy) is Slime);
    }
}

/// Column and row come back from an index by remainder and quotient.
proof fn lemma_coords_of_index(w: int, x: int, y: int)
    requires
        0 <= x < w,
        0 <= y,
    ensures
        (y * w + x) % w == x,
        (y * w + x) / w == y,
{
    vstd::arithmetic::div_mod::lemma_fundamental_div_mod_converse(y * w + x, w, y, x);
    vstd::arithmetic::mul::lemma_mul_is_commutative(y, w);
}


impl GridState {
    /// One simulation step. Every cell that `spreads_to` before the step
    /// becomes a fresh mine; every other cell keeps its tile, so a mine is
    /// never converted again, and the mine list stays free of repeats. The
    /// returned batch names each converted cell once, with its new tile.
    pub fn tick(&mut self) -> (changes: Vec<TileState>)
        requires
            old(self).wf(),
        ensures
            final(self).wf(),
            final(self).width == old(self).width,
            final(self).height == old(self).height,
            forall|x: int, y: int|
                old(self).in_bounds(x, y) ==> if old(self).spreads_to(x, y) {
                    is_fresh_mine(#[trigger] final(self).tile_at(x, y))
                } else {
                    final(self).tile_at(x, y) == old(self).tile_at(x, y)
                },
            forall|x: int, y: int|
                old(self).in_bounds(x, y) && old(self).tile_at(x, y) is Mine ==> #[trigger] final(self).tile_at(x, y)
                    == old(self).tile_at(x, y),
            final(self).mine_tiles@.no_duplicates(),
            forall|j: int|
                0 <= j < changes@.len() ==> old(self).in_bounds(
                    (#[trigger] changes@[j]).col as int,
                    changes@[j].row as int,
                ) && old(self).spreads_to(changes@[j].col as int, changes@[j].row as int)
                    && is_fresh_mine(changes@[j].data),
            forall|x: int, y: int|
                old(self).in_bounds(x, y) && #[trigger] old(self).spreads_to(x, y) ==> exists|j: int|
                    0 <= j < changes@.len() && (#[trigger] changes@[j]).col == x && changes@[j].row == y,
            forall|i: int, j: int|
                0 <= i < j < changes@.len() ==> ((#[trigger] changes@[i]).col, changes@[i].row) != (
                (#[trigger] changes@[j]).col,
                changes@[j].row,
            ),
    {
        let ghost g = *self;
        let mut src: Vec<usize> = Vec::new();
        let mut c: usize = 0;
        while c < self.slime_tiles.len()
            invariant
                *self == g,
                c <= g.slime_tiles@.len(),
                src@ == g.slime_tiles@.subrange(0, c as int),
            decreases g.slime_tiles@.len() - c,
        {
            src.push(self.slime_tiles[c]);
            c = c + 1;
        }
        proof {
            assert(src@ =~= g.slime_tiles@);
        }
        let mut changes: Vec<TileState> = Vec::new();
        let mut k: usize = 0;
        while k < src.len()
            invariant
                g.wf(),
                self.wf(),
                self.width == g.width,
                self.height == g.height,
                src@ == g.slime_tiles@,
                k <= src@.len(),
                forall|x: int, y: int|
                    g.in_bounds(x, y) ==> if reached(g, src@, k as int, x, y) {
                        is_fresh_mine(#[trigger] self.tile_at(x, y))
                    } else {
                        self.tile_at(x, y) == g.tile_at(x, y)
                    },
                forall|j: int|
                    0 <= j < changes@.len() ==> g.in_bounds(
                        (#[trigger] changes@[j]).col as int,
                        changes@[j].row as int,
                    ) && reached(g, src@, k as int, changes@[j].col as int, changes@[j].row as int)
                        && is_fresh_mine(changes@[j].data),
                forall|x: int, y: int|
                    g.in_bounds(x, y) && #[trigger] reached(g, src@, k as int, x, y) ==> exists|j: int|
                        0 <= j < changes@.len() && (#[trigger] changes@[j]).col == x && changes@[j].row
                            == y,
                forall|i: int, j: int|
                    0 <= i < j < changes@.len() ==> ((#[trigger] changes@[i]).col, changes@[i].row)
                        != ((#[trigger] changes@[j]).col, changes@[j].row),
            decreases src@.len() - k,
        {
            proof {
                assert(src@.contains(src@[k as int]));
            }
            let (sx, sy) = self.get_coords(src[k]);
            let nb = self.get_neighbors(sx, sy);
            proof {
                assert forall|x: int, y: int| g.in_bounds(x, y) implies #[trigger] reached(g, src@, k + 1, x, y)
                    == reached_in(g, src@, k as int, nb@, nb@.len() as int, x, y) by {
                    lemma_reached_next(g, src@, k as int, nb@, sx, sy, x, y);
                }
                assert forall|x: int, y: int| #[trigger] reached_in(g, src@, k as int, nb@, 0, x, y) == reached(g, src@, k as int, x, y) by {}
            }
            let mut m: usize = 0;
            while m < nb.len()
                invariant
                    g.wf(),
                    self.wf(),
                    self.width == g.width,
                    self.height == g.height,
                    src@ == g.slime_tiles@,
                    k < src@.len(),
                    m <= nb@.len(),
                    forall|x: int, y: int| g.in_bounds(x, y) ==> #[trigger] reached(g, src@, k + 1, x, y)
                        == reached_in(g, src@, k as int, nb@, nb@.len() as int, x, y),
                    forall|t: int| 0 <= t < nb@.len() ==> g.in_bounds(#[trigger] nb@[t].0 as int, nb@[t].1 as int),
                    forall|x: int, y: int|
                        g.in_bounds(x, y) ==> if reached_in(g, src@, k as int, nb@, m as int, x, y) {
                            is_fresh_mine(#[trigger] self.tile_at(x, y))
                        } else {
                            self.tile_at(x, y) == g.tile_at(x, y)
                        },
                    forall|j: int|
                        0 <= j < changes@.len() ==> g.in_bounds(
                            (#[trigger] changes@[j]).col as int,
                            changes@[j].row as int,
                        ) && reached_in(
                            g,
                            src@,
                            k as int,
                            nb@,
                            m as int,
                            changes@[j].col as int,
                            changes@[j].row as int,
                        ) && is_fresh_mine(changes@[j].data),
                    forall|x: int, y: int|
                        g.in_bounds(x, y) && #[trigger] reached_in(g, src@, k as int, nb@, m as int, x, y)
                            ==> exists|j: int|
                            0 <= j < changes@.len() && (#[trigger] changes@[j]).col == x
                                && changes@[j].row == y,
                    forall|i: int, j: int|
                        0 <= i < j < changes@.len() ==> ((#[trigger] changes@[i]).col, changes@[i].row)
                            != ((#[trigger] changes@[j]).col, changes@[j].row),
                decreases nb@.len() - m,
            {
                let ghost prev = *self;
                let ghost ch0 = changes@;
                let (nx, ny) = nb[m];
                let idx = self.get_index(nx, ny);
                proof {
                    let before = prev.tile_at(nx as int, ny as int);
                    assert(reached_in(g, src@, k as int, nb@, m as int, nx as int, ny as int) ==> is_fresh_mine(before));
                    lemma_reached_in_step(g, src@, k as int, nb@, m as int, nx as int, ny as int);
                }
                if self.tiles[idx].kind() != TileKind::Mine {
                    let _ = self.set_tile(nx, ny, fresh_mine());
                    changes.push(TileState { col: nx as i32, row: ny as i32, data: fresh_mine() });
                }
                proof {
                    let w = g.width as int;
                    let h = g.height as int;
                    assert forall|x: int, y: int| g.in_bounds(x, y) implies if reached_in(g, src@, k as int, nb@, m + 1, x, y) {
                        is_fresh_mine(#[trigger] self.tile_at(x, y))
                    } else {
                        self.tile_at(x, y) == g.tile_at(x, y)
                    } by {
                        lemma_reached_in_step(g, src@, k as int, nb@, m as int, x, y);
                        if x != nx || y != ny {
                            if g.index_of(x, y) == idx {
                                lemma_index_injective(w, h, x, y, nx as int, ny as int);
                            }
                            lemma_index_in_range(w, h, x, y);
                            assert(self.tile_at(x, y) == prev.tile_at(x, y));
                        }
                    }
                    assert forall|j: int| 0 <= j < changes@.len() implies g.in_bounds(
                        (#[trigger] changes@[j]).col as int,
                        changes@[j].row as int,
                    ) && reached_in(
                        g,
                        src@,
                        k as int,
                        nb@,
                        m + 1,
                        changes@[j].col as int,
                        changes@[j].row as int,
                    ) && is_fresh_mine(changes@[j].data) by {
                        lemma_reached_in_step(g, src@, k as int, nb@, m as int, changes@[j].col as int, changes@[j].row as int);
                    }
                    assert forall|x: int, y: int|
                        g.in_bounds(x, y) && #[trigger] reached_in(g, src@, k as int, nb@, m + 1, x, y)
                            implies exists|j: int|
                            0 <= j < changes@.len() && (#[trigger] changes@[j]).col == x
                                && changes@[j].row == y by {
                        lemma_reached_in_step(g, src@, k as int, nb@, m as int, x, y);
                        if reached_in(g, src@, k as int, nb@, m as int, x, y) {
                            let j = choose|j: int| 0 <= j < ch0.len() && (#[trigger] ch0[j]).col == x && ch0[j].row == y;
                            assert(changes@[j] == ch0[j]);
                        } else {
                            assert(changes@[ch0.len() as int].col == x);
                        }
                    }
                }
                m = m + 1;
            }
            k = k + 1;
        }
        proof {
            assert forall|x: int, y: int| g.in_bounds(x, y) implies reached(g, src@, src@.len() as int, x, y)
                == #[trigger] g.spreads_to(x, y) by {
                lemma_reached_all(g, x, y);
            }
        }
        changes
    }
}

} // verus!
