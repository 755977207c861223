//! Placing mines: a random choice of distinct positions, then the verified
//! layout of mines and neighbour counts.
use vstd::prelude::*;
use itertools::Itertools;
use crate::tile::{Tile, TileType, GameState};
use crate::board::TileArray;
use crate::grid::{
    index_of, mines_around, count_mines, is_mine, lemma_index, lemma_coords, lemma_index_injective,
    lemma_count_update, lemma_count_same, lemma_count_none, lemma_mines_around_same, neighbour,
};
use crate::uncover::{pos, holds_pos};

verus! {

/// Relies on itertools' `cartesian_product`: the pairs `(x, y)` with `x` in
/// `0..width` and `y` in `0..height`, `x` in the outer position.
#[verifier::external_body]
fn all_positions(width: usize, height: usize) -> (r: Vec<(usize, usize)>)
    requires
        width * height <= usize::MAX,
    ensures
        r@.len() == width * height,
        forall|i: int| 0 <= i < r@.len() ==> #[trigger] pos(r@[i]) == (i / height as int, i % height as int),
{
    (0..width).cartesian_product(0..height).collect()
}

/// Relies on rand's `seq::index::sample` with the thread-local generator:
/// `amount` distinct indices from `0..length`, in random order. It panics
/// when `amount > length`.
#[verifier::external_body]
fn sample_indices(length: usize, amount: usize) -> (r: Vec<usize>)
    requires
        amount <= length,
    ensures
        r@.len() == amount,
        r@.no_duplicates(),
        forall|i: int| 0 <= i < r@.len() ==> #[trigger] r@[i] < length,
{
    rand::seq::index::sample(&mut rand::thread_rng(), length, amount).into_vec()
}

impl TileArray {
    /// Every safe cell holds the number of mines among its neighbours.
    pub open spec fn adjacency_correct(&self) -> bool {
        forall|x: int, y: int| #![trigger self.tile(x, y)]
            self.in_bounds(x, y) ==> match self.tile(x, y).kind {
                TileType::Safe(n) => n as nat == mines_around(self.data@, self.width as int, self.height as int, x, y, 8),
                TileType::Mine => true,
            }
    }

    /// Every cell is covered and unmarked.
    pub open spec fn all_fresh(&self) -> bool {
        forall|i: int| 0 <= i < self.data@.len() ==> !(#[trigger] self.data@[i]).uncovered
            && self.data@[i].marked == crate::tile::MarkType::No
    }

    /// The state of a new game: in play, every cell covered and unmarked,
    /// exactly `num_mines` mines, and every safe cell counting its
    /// neighbouring mines.
    pub open spec fn fresh_game(&self) -> bool {
        &&& self.game_state == GameState::Play
        &&& self.all_fresh()
        &&& count_mines(self.data@) == self.num_mines
        &&& self.adjacency_correct()
    }

    /// The number of mines among the neighbours of `(x, y)`.
    pub fn count_adjacent_mines(&self, x: usize, y: usize) -> (r: u8)
        requires
            self.wf(),
            self.in_bounds(x as int, y as int),
        ensures
            r as nat == mines_around(self.data@, self.width as int, self.height as int, x as int, y as int, 8),
    {
        let mut count: u8 = 0;
        let mut k: usize = 0;
        while k < 8
            invariant
                self.wf(),
                self.in_bounds(x as int, y as int),
                k <= 8,
                count as nat == mines_around(self.data@, self.width as int, self.height as int, x as int, y as int, k as int),
                count <= k,
            decreases 8 - k,
        {
            match neighbour(self.width, self.height, x, y, k) {
                Some((nx, ny)) => {
                    match self.get_tile_type(nx, ny) {
                        TileType::Mine => {
                            count = count + 1;
                        },
                        TileType::Safe(_) => {},
                    }
                },
                None => {},
            }
            k = k + 1;
        }
        count
    }

    /// Lays out a new game with mines exactly at the given positions, which
    /// must be distinct, on the board, and as many as the board's mine count.
    /// Every other cell becomes safe with its neighbour count; every cell is
    /// covered and unmarked, and the game is in play.
    pub fn setup_with_mines(&mut self, mines: &Vec<(usize, usize)>)
        requires
            old(self).wf(),
            mines@.len() == old(self).num_mines,
            forall|j: int| 0 <= j < mines@.len() ==> old(self).in_bounds(
                #[trigger] pos(mines@[j]).0, pos(mines@[j]).1),
            forall|a: int, b: int| 0 <= a < b < mines@.len() ==> pos(#[trigger] mines@[a]) != pos(#[trigger] mines@[b]),
        ensures
            final(self).wf(),
            final(self).same_frame(old(self)),
            final(self).fresh_game(),
            forall|x: int, y: int| #![trigger final(self).tile(x, y)]
                final(self).in_bounds(x, y) ==> (final(self).tile(x, y).kind is Mine <==> holds_pos(mines@, (x, y))),
    {
        let n = self.data.len();
        let ghost w = self.width as int;
        let ghost h = self.height as int;
        let ghost start = *self;
        let mut i: usize = 0;
        while i < n
            invariant
                self.wf(),
                self.same_frame(&start),
                self.game_state == start.game_state,
                n == self.data@.len(),
                i <= n,
                forall|j: int| 0 <= j < i ==> #[trigger] self.data@[j] == Tile::new_spec(TileType::Safe(0)),
            decreases n - i,
        {
            self.data[i] = Tile::new(TileType::Safe(0));
            i = i + 1;
        }
        proof {
            lemma_count_none(self.data@, is_mine());
        }
        proof {
            assert forall|x: int, y: int| #![trigger self.tile(x, y)] self.in_bounds(x, y) implies
                (self.tile(x, y).kind is Mine <==> holds_pos(mines@.take(0), (x, y))) by {
                lemma_index(w, h, x, y);
            }
        }
        let m = mines.len();
        let mut j: usize = 0;
        while j < m
            invariant
                self.wf(),
                self.same_frame(&start),
                self.game_state == start.game_state,
                n == self.data@.len(),
                w == self.width,
                h == self.height,
                m == mines@.len(),
                j <= m,
                forall|a: int| 0 <= a < mines@.len() ==> start.in_bounds(#[trigger] pos(mines@[a]).0, pos(mines@[a]).1),
                forall|a: int, b: int| 0 <= a < b < mines@.len() ==> pos(#[trigger] mines@[a]) != pos(#[trigger] mines@[b]),
                forall|k: int| 0 <= k < n ==> !(#[trigger] self.data@[k]).uncovered
                    && self.data@[k].marked == crate::tile::MarkType::No
                    && (self.data@[k].kind is Mine || self.data@[k].kind == TileType::Safe(0)),
                forall|x: int, y: int| #![trigger self.tile(x, y)] self.in_bounds(x, y) ==>
                    (self.tile(x, y).kind is Mine <==> holds_pos(mines@.take(j as int), (x, y))),
                count_mines(self.data@) == j,
            decreases m - j,
        {
            let (mx, my) = mines[j];
            let ghost prev = *self;
            proof {
                assert(start.in_bounds(pos(mines@[j as int]).0, pos(mines@[j as int]).1));
                lemma_index(w, h, mx as int, my as int);
                assert(!holds_pos(mines@.take(j as int), (mx as int, my as int))) by {
                    if holds_pos(mines@.take(j as int), (mx as int, my as int)) {
                        let a = choose|a: int| 0 <= a < j && #[trigger] pos(mines@.take(j as int)[a]) == (mx as int, my as int);
                        assert(pos(mines@[a]) == pos(mines@[j as int]));
                    }
                }
            }
            self.set_tile_type(mx, my, TileType::Mine);
            proof {
                let q = (mx as int, my as int);
                let iq = index_of(w, q.0, q.1);
                lemma_count_update(prev.data@, is_mine(), iq, Tile { kind: TileType::Mine, ..prev.tile(q.0, q.1) });
                assert forall|x: int, y: int| #![trigger self.tile(x, y)] self.in_bounds(x, y) implies
                    (self.tile(x, y).kind is Mine <==> holds_pos(mines@.take(j + 1), (x, y))) by {
                    lemma_index(w, h, x, y);
                    if (x, y) == q {
                        assert(pos(mines@.take(j + 1)[j as int]) == q);
                    } else {
                        if index_of(w, x, y) == iq {
                            lemma_index_injective(w, h, x, y, q.0, q.1);
                        }
                        assert(self.tile(x, y) == prev.tile(x, y));
                        if holds_pos(mines@.take(j + 1), (x, y)) {
                            let a = choose|a: int| 0 <= a < j + 1 && #[trigger] pos(mines@.take(j + 1)[a]) == (x, y);
                            assert(pos(mines@.take(j as int)[a]) == (x, y));
                        }
                        if holds_pos(mines@.take(j as int), (x, y)) {
                            let a = choose|a: int| 0 <= a < j && #[trigger] pos(mines@.take(j as int)[a]) == (x, y);
                            assert(pos(mines@.take(j + 1)[a]) == (x, y));
                        }
                    }
                }
            }
            j = j + 1;
        }
        proof {
            assert(mines@.take(m as int) == mines@);
        }
        let ghost laid = *self;
        let mut i: usize = 0;
        while i < n
            invariant
                self.wf(),
                self.same_frame(&start),
                self.game_state == start.game_state,
                laid.wf(),
                n == self.data@.len(),
                n == laid.data@.len(),
                w == self.width,
                h == self.height,
                i <= n,
                forall|k: int| 0 <= k < n ==> !(#[trigger] self.data@[k]).uncovered
                    && self.data@[k].marked == crate::tile::MarkType::No
                    && (self.data@[k].kind is Mine <==> laid.data@[k].kind is Mine),
                forall|k: int| i <= k < n ==> #[trigger] self.data@[k] == laid.data@[k],
                forall|k: int| 0 <= k < i ==> match (#[trigger] self.data@[k]).kind {
                    TileType::Safe(c) => c as nat == mines_around(laid.data@, w, h, k % w, k / w, 8),
                    TileType::Mine => true,
                },
            decreases n - i,
        {
            let x = i % self.width;
            let y = i / self.width;
            proof {
                lemma_coords(w, h, i as int);
            }
            let ghost prev = *self;
            match self.get_tile_type(x, y) {
                TileType::Safe(_) => {
                    let count = self.count_adjacent_mines(x, y);
                    proof {
                        lemma_mines_around_same(laid.data@, self.data@, w, h, x as int, y as int, 8);
                    }
                    self.set_tile_type(x, y, TileType::Safe(count));
                },
                TileType::Mine => {},
            }
            i = i + 1;
        }
        self.game_state = GameState::Play;
        proof {
            lemma_count_same(laid.data@, self.data@, is_mine(), is_mine());
            assert forall|x: int, y: int| #![trigger self.tile(x, y)]
                self.in_bounds(x, y) implies match self.tile(x, y).kind {
                    TileType::Safe(c) => c as nat == mines_around(self.data@, w, h, x, y, 8),
                    TileType::Mine => true,
                } by {
                lemma_index(w, h, x, y);
                lemma_mines_around_same(laid.data@, self.data@, w, h, x, y, 8);
            }
            assert forall|x: int, y: int| #![trigger self.tile(x, y)]
                self.in_bounds(x, y) implies (self.tile(x, y).kind is Mine <==> holds_pos(mines@, (x, y))) by {
                lemma_index(w, h, x, y);
                assert(laid.tile(x, y).kind is Mine <==> holds_pos(mines@, (x, y)));
            }
        }
    }

    /// Starts a new game: chooses `num_mines` distinct positions at random,
    /// lays out mines there and neighbour counts elsewhere, covers and
    /// unmarks every cell and puts the game in play. Size, mine count and
    /// cursor stay.
    pub fn setup(&mut self)
        requires
            old(self).wf(),
        ensures
            final(self).wf(),
            final(self).same_frame(old(self)),
            final(self).fresh_game(),
    {
        let ghost w = self.width as int;
        let ghost h = self.height as int;
        let n = self.data.len();
        proof {
            assert(w * h == h * w) by (nonlinear_arith);
        }
        let positions = all_positions(self.width, self.height);
        let picks = sample_indices(positions.len(), self.num_mines);
        let mut mines: Vec<(usize, usize)> = Vec::new();
        let mut j: usize = 0;
        while j < picks.len()
            invariant
                self.wf(),
                w == self.width,
                h == self.height,
                w * h == h * w,
                positions@.len() == w * h,
                forall|i: int| 0 <= i < positions@.len() ==> #[trigger] pos(positions@[i]) == (i / h, i % h),
                picks@.no_duplicates(),
                forall|i: int| 0 <= i < picks@.len() ==> #[trigger] picks@[i] < positions@.len(),
                j <= picks@.len(),
                mines@.len() == j,
                forall|a: int| 0 <= a < j ==> #[trigger] mines@[a] == positions@[picks@[a] as int],
            decreases picks@.len() - j,
        {
            mines.push(positions[picks[j]]);
            j = j + 1;
        }
        proof {
            assert forall|a: int| 0 <= a < mines@.len() implies self.in_bounds(
                #[trigger] pos(mines@[a]).0, pos(mines@[a]).1) by {
                let i = picks@[a] as int;
                assert(pos(positions@[i]) == (i / h, i % h));
                lemma_coords(h, w, i);
            }
            assert forall|a: int, b: int| 0 <= a < b < mines@.len() implies pos(#[trigger] mines@[a]) != pos(#[trigger] mines@[b]) by {
                let ia = picks@[a] as int;
                let ib = picks@[b] as int;
                assert(pos(positions@[ia]) == (ia / h, ia % h));
                assert(pos(positions@[ib]) == (ib / h, ib % h));
                lemma_coords(h, w, ia);
                lemma_coords(h, w, ib);
                assert(picks@[a] != picks@[b]);
            }
        }
        self.setup_with_mines(&mines);
    }
}

} // verus!
