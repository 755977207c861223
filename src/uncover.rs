//! Uncovering cells: the reveal of one cell, and the cascade that spreads
//! from a revealed cell whose flagged neighbours match its number.
use vstd::prelude::*;
use crate::tile::{Tile, TileType, MarkType, GameState};
use crate::board::TileArray;
use crate::grid::{
    index_of, nb, flags_around, count_covered, is_covered, lemma_index, lemma_index_injective,
    lemma_flags_around_same, lemma_count_update, neighbour,
};

verus! {

/// A pair of board coordinates as integers.
pub open spec fn pos(e: (usize, usize)) -> (int, int) {
    (e.0 as int, e.1 as int)
}

/// Whether some entry of `s` stands for position `p`.
pub open spec fn holds_pos(s: Seq<(usize, usize)>, p: (int, int)) -> bool {
    exists|j: int| 0 <= j < s.len() && #[trigger] pos(s[j]) == p
}

impl TileArray {
    /// The cell at `(x, y)` is safe and exactly as many of its neighbours are
    /// flagged as it has neighbouring mines: a reveal spreads from it.
    pub open spec fn satisfied(&self, x: int, y: int) -> bool {
        match self.tile(x, y).kind {
            TileType::Safe(n) => flags_around(self.data@, self.width as int, self.height as int, x, y, 8) == n as nat,
            TileType::Mine => false,
        }
    }

    /// A spreading reveal enters `p`: it is on the board, unmarked and covered.
    pub open spec fn open_to(&self, p: (int, int)) -> bool {
        &&& self.in_bounds(p.0, p.1)
        &&& self.tile(p.0, p.1).marked == MarkType::No
        &&& !self.tile(p.0, p.1).uncovered
    }

    /// `t` holds `(x, y)` and everything a reveal spreads to from a satisfied
    /// position of `t`.
    pub open spec fn cascade_closed(&self, x: int, y: int, t: Set<(int, int)>) -> bool {
        &&& t.contains((x, y))
        &&& forall|c: (int, int), k: int|
            #![trigger t.contains(c), nb(c.0, c.1, k)]
            t.contains(c) && 0 <= k < 8 && self.in_bounds(c.0, c.1) && self.satisfied(c.0, c.1)
                && self.open_to(nb(c.0, c.1, k)) ==> t.contains(nb(c.0, c.1, k))
    }

    /// The positions uncovered by revealing `(x, y)`: the least set closed
    /// under spreading that holds `(x, y)`.
    pub open spec fn cascade(&self, x: int, y: int) -> Set<(int, int)> {
        Set::new(|p: (int, int)| forall|t: Set<(int, int)>| #[trigger] self.cascade_closed(x, y, t) ==> t.contains(p))
    }

    /// Some position of the cascade from `(x, y)` holds a mine.
    pub open spec fn cascade_hits_mine(&self, x: int, y: int) -> bool {
        exists|p: (int, int)| #[trigger] self.cascade(x, y).contains(p) && self.in_bounds(p.0, p.1)
            && self.tile(p.0, p.1).kind is Mine
    }

    /// Whether `p` counts as uncovered by the reveal of `(x, y)` that led
    /// from `self` to `cur`.
    pub open spec fn newly(&self, cur: &TileArray, x: int, y: int, p: (int, int)) -> bool {
        &&& self.in_bounds(p.0, p.1)
        &&& (p == (x, y) || (cur.tile(p.0, p.1).uncovered && !self.tile(p.0, p.1).uncovered))
    }

    /// Kinds and marks of all cells agree.
    pub open spec fn same_layout(&self, other: &TileArray) -> bool {
        &&& self.data@.len() == other.data@.len()
        &&& forall|i: int| 0 <= i < self.data@.len() ==> (#[trigger] self.data@[i]).kind == other.data@[i].kind
            && self.data@[i].marked == other.data@[i].marked
    }

    /// The number of flagged neighbours of `(x, y)`.
    pub fn count_adjacent_flags(&self, x: usize, y: usize) -> (r: u8)
        requires
            self.wf(),
            self.in_bounds(x as int, y as int),
        ensures
            r as nat == flags_around(self.data@, self.width as int, self.height as int, x as int, y as int, 8),
    {
        let mut count: u8 = 0;
        let mut k: usize = 0;
        while k < 8
            invariant
                self.wf(),
                self.in_bounds(x as int, y as int),
                k <= 8,
                count as nat == flags_around(self.data@, self.width as int, self.height as int, x as int, y as int, k as int),
                count <= k,
            decreases 8 - k,
        {
            match neighbour(self.width, self.height, x, y, k) {
                Some((nx, ny)) => {
                    if self.get_tile_mark(nx, ny) == MarkType::Yes {
                        count = count + 1;
                    }
                },
                None => {},
            }
            k = k + 1;
        }
        count
    }

    /// Uncovers `(x, y)`. A mine loses the game; a satisfied safe cell pushes
    /// onto `stack` each neighbour the reveal spreads to.
    fn reveal_one(&mut self, x: usize, y: usize, stack: &mut Vec<(usize, usize)>)
        requires
            old(self).wf(),
            old(self).in_bounds(x as int, y as int),
        ensures
            final(self).wf(),
            final(self).same_frame(old(self)),
            final(self).data@ == old(self).data@.update(
                index_of(old(self).width as int, x as int, y as int),
                Tile { uncovered: true, ..old(self).tile(x as int, y as int) },
            ),
            final(self).game_state == if old(self).tile(x as int, y as int).kind is Mine {
                GameState::Lose
            } else {
                old(self).game_state
            },
            final(stack)@.len() >= old(stack)@.len(),
            forall|j: int| 0 <= j < old(stack)@.len() ==> final(stack)@[j] == old(stack)@[j],
            forall|j: int| old(stack)@.len() <= j < final(stack)@.len() ==> {
                &&& old(self).satisfied(x as int, y as int)
                &&& final(self).open_to(pos(#[trigger] final(stack)@[j]))
                &&& exists|k: int| 0 <= k < 8 && #[trigger] nb(x as int, y as int, k) == pos(final(stack)@[j])
            },
            forall|k: int| 0 <= k < 8 && old(self).satisfied(x as int, y as int)
                && final(self).open_to(#[trigger] nb(x as int, y as int, k))
                ==> holds_pos(final(stack)@, nb(x as int, y as int, k)),
    {
        proof {
            lemma_index(self.width as int, self.height as int, x as int, y as int);
        }
        let ghost before = *self;
        let ghost stack0 = stack@;
        self.set_tile_uncovered(x, y, true);
        proof {
            lemma_flags_around_same(before.data@, self.data@, self.width as int, self.height as int, x as int, y as int, 8);
        }
        match self.get_tile_type(x, y) {
            TileType::Mine => {
                self.game_state = GameState::Lose;
            },
            TileType::Safe(n) => {
                let flags = self.count_adjacent_flags(x, y);
                if flags == n {
                    let mut k: usize = 0;
                    while k < 8
                        invariant
                            self.wf(),
                            self.in_bounds(x as int, y as int),
                            before.satisfied(x as int, y as int),
                            k <= 8,
                            stack@.len() >= stack0.len(),
                            forall|j: int| 0 <= j < stack0.len() ==> stack@[j] == stack0[j],
                            forall|j: int| stack0.len() <= j < stack@.len() ==> {
                                &&& self.open_to(pos(#[trigger] stack@[j]))
                                &&& exists|kk: int| 0 <= kk < 8 && #[trigger] nb(x as int, y as int, kk) == pos(stack@[j])
                            },
                            forall|kk: int| 0 <= kk < k && self.open_to(#[trigger] nb(x as int, y as int, kk))
                                ==> holds_pos(stack@, nb(x as int, y as int, kk)),
                        decreases 8 - k,
                    {
                        let ghost st = stack@;
                        match neighbour(self.width, self.height, x, y, k) {
                            Some((nx, ny)) => {
                                if self.get_tile_mark(nx, ny) == MarkType::No && !self.is_tile_uncovered(nx, ny) {
                                    stack.push((nx, ny));
                                    proof {
                                        assert(pos(stack@[st.len() as int]) == nb(x as int, y as int, k as int));
                                        assert forall|kk: int| 0 <= kk < k + 1 && self.open_to(#[trigger] nb(x as int, y as int, kk))
                                            implies holds_pos(stack@, nb(x as int, y as int, kk)) by {
                                            if kk < k {
                                                let j = choose|j: int| 0 <= j < st.len() && #[trigger] pos(st[j]) == nb(x as int, y as int, kk);
                                                assert(stack@[j] == st[j]);
                                            }
                                        }
                                    }
                                } else {
                                    assert(!self.open_to(nb(x as int, y as int, k as int)));
                                }
                            },
                            None => {},
                        }
                        k = k + 1;
                    }
                } else {
                    assert(!before.satisfied(x as int, y as int));
                }
            },
        }
    }

    /// Uncovers `(x, y)` as the player asks (`deduction`) or as a cascade
    /// does. A flagged or uncertain cell is left alone, and so is a cell
    /// already uncovered unless the player asks. Otherwise every position of
    /// the cascade from `(x, y)` is uncovered, and the game is lost if one of
    /// them holds a mine. Kinds and marks never change.
    pub fn uncover_tile(&mut self, x: usize, y: usize, deduction: bool)
        requires
            old(self).wf(),
            old(self).in_bounds(x as int, y as int),
        ensures
            final(self).wf(),
            final(self).same_frame(old(self)),
            old(self).same_layout(final(self)),
            old(self).keeps_uncovered(final(self)),
            old(self).tile(x as int, y as int).marked != MarkType::No
                || (!deduction && old(self).tile(x as int, y as int).uncovered) ==> {
                &&& final(self).data@ == old(self).data@
                &&& final(self).game_state == old(self).game_state
            },
            old(self).tile(x as int, y as int).marked == MarkType::No
                && (deduction || !old(self).tile(x as int, y as int).uncovered) ==> {
                &&& forall|i: int, j: int| old(self).in_bounds(i, j) ==>
                    #[trigger] final(self).tile(i, j).uncovered
                        == (old(self).tile(i, j).uncovered || old(self).cascade(x as int, y as int).contains((i, j)))
                &&& final(self).game_state == if old(self).cascade_hits_mine(x as int, y as int) {
                    GameState::Lose
                } else {
                    old(self).game_state
                }
            },
            old(self).tile(x as int, y as int).marked == MarkType::No
                && (deduction || !old(self).tile(x as int, y as int).uncovered)
                && old(self).tile(x as int, y as int).kind is Mine ==> {
                &&& final(self).game_state == GameState::Lose
                &&& final(self).tile(x as int, y as int).uncovered
                &&& forall|i: int, j: int| old(self).in_bounds(i, j) && (i, j) != (x as int, y as int) ==>
                    #[trigger] final(self).tile(i, j).uncovered == old(self).tile(i, j).uncovered
            },
    {
        let mark = self.get_tile_mark(x, y);
        if mark == MarkType::Yes || mark == MarkType::Uncertain {
            return;
        }
        if !deduction && self.is_tile_uncovered(x, y) {
            return;
        }
        let ghost start = *self;
        let ghost xi = x as int;
        let ghost yi = y as int;
        let mut stack: Vec<(usize, usize)> = Vec::new();
        self.reveal_one(x, y, &mut stack);
        proof {
            lemma_index(self.width as int, self.height as int, xi, yi);
            assert forall|p: (int, int)| start.newly(self, xi, yi, p) implies p == (xi, yi) by {
                if p != (xi, yi) {
                    lemma_index(self.width as int, self.height as int, p.0, p.1);
                    if index_of(self.width as int, p.0, p.1) == index_of(self.width as int, xi, yi) {
                        lemma_index_injective(self.width as int, self.height as int, p.0, p.1, xi, yi);
                    }
                }
            }
            assert forall|j: int| 0 <= j < stack@.len() implies start.open_to(pos(#[trigger] stack@[j])) by {
                let q = pos(stack@[j]);
                lemma_index(self.width as int, self.height as int, q.0, q.1);
            }
            assert forall|t: Set<(int, int)>| #[trigger] start.cascade_closed(xi, yi, t) implies
                (forall|p: (int, int)| start.newly(self, xi, yi, p) ==> t.contains(p))
                && (forall|j: int| 0 <= j < stack@.len() ==> t.contains(pos(stack@[j]))) by {
                assert forall|j: int| 0 <= j < stack@.len() implies t.contains(pos(stack@[j])) by {
                    assert(start.open_to(pos(stack@[j])));
                    assert(start.satisfied(xi, yi));
                    let k = choose|k: int| 0 <= k < 8 && #[trigger] nb(xi, yi, k) == pos(stack@[j]);
                    lemma_index(self.width as int, self.height as int, pos(stack@[j]).0, pos(stack@[j]).1);
                    let c = (xi, yi);
                    assert(t.contains(c));
                    assert(nb(c.0, c.1, k) == nb(xi, yi, k));
                    assert(t.contains(nb(c.0, c.1, k)));
                }
            }
            assert forall|p: (int, int), k: int|
                #![trigger start.newly(self, xi, yi, p), nb(p.0, p.1, k)]
                start.newly(self, xi, yi, p) && 0 <= k < 8 && start.satisfied(p.0, p.1)
                    && start.open_to(nb(p.0, p.1, k))
                implies self.tile(nb(p.0, p.1, k).0, nb(p.0, p.1, k).1).uncovered
                    || holds_pos(stack@, nb(p.0, p.1, k)) by {
                let q = nb(p.0, p.1, k);
                lemma_index(self.width as int, self.height as int, q.0, q.1);
                assert(p == (xi, yi));
            }
            assert(start.newly(self, xi, yi, (xi, yi)));
        }
        while stack.len() > 0
            invariant
                self.wf(),
                self.same_frame(&start),
                start.same_layout(self),
                start.keeps_uncovered(self),
                start.wf(),
                start.in_bounds(xi, yi),
                xi == x,
                yi == y,
                self.tile(xi, yi).uncovered,
                forall|j: int| 0 <= j < stack@.len() ==> start.open_to(pos(#[trigger] stack@[j])),
                forall|t: Set<(int, int)>| #[trigger] start.cascade_closed(xi, yi, t) ==>
                    (forall|p: (int, int)| start.newly(self, xi, yi, p) ==> t.contains(p))
                    && (forall|j: int| 0 <= j < stack@.len() ==> t.contains(pos(stack@[j]))),
                forall|p: (int, int), k: int|
                    #![trigger start.newly(self, xi, yi, p), nb(p.0, p.1, k)]
                    start.newly(self, xi, yi, p) && 0 <= k < 8 && start.satisfied(p.0, p.1)
                        && start.open_to(nb(p.0, p.1, k))
                        ==> self.tile(nb(p.0, p.1, k).0, nb(p.0, p.1, k).1).uncovered
                            || holds_pos(stack@, nb(p.0, p.1, k)),
                forall|p: (int, int)| start.newly(self, xi, yi, p) && start.tile(p.0, p.1).kind is Mine
                    ==> self.game_state == GameState::Lose,
                (forall|p: (int, int)| start.newly(self, xi, yi, p) ==> !(start.tile(p.0, p.1).kind is Mine))
                    ==> self.game_state == start.game_state,
            decreases count_covered(self.data@), stack@.len(),
        {
            let ghost ost = stack@;
            let e = stack.pop().unwrap();
            let ghost ep = pos(e);
            let ghost w = self.width as int;
            let ghost h = self.height as int;
            proof {
                assert(start.open_to(pos(ost[ost.len() - 1])));
                assert(stack@ == ost.subrange(0, ost.len() - 1));
                lemma_index(w, h, ep.0, ep.1);
            }
            if !self.is_tile_uncovered(e.0, e.1) {
                let ghost prev = *self;
                let ghost pst = stack@;
                self.reveal_one(e.0, e.1, &mut stack);
                proof {
                    lemma_index(w, h, xi, yi);
                    assert forall|p: (int, int)| #[trigger] start.newly(self, xi, yi, p)
                        == (start.newly(&prev, xi, yi, p) || p == ep) by {
                        if p != ep && start.in_bounds(p.0, p.1) {
                            lemma_index(w, h, p.0, p.1);
                            if index_of(w, p.0, p.1) == index_of(w, ep.0, ep.1) {
                                lemma_index_injective(w, h, p.0, p.1, ep.0, ep.1);
                            }
                        }
                    }
                    lemma_flags_around_same(start.data@, prev.data@, w, h, ep.0, ep.1, 8);
                    assert(prev.satisfied(ep.0, ep.1) == start.satisfied(ep.0, ep.1));
                    assert forall|j: int| 0 <= j < stack@.len() implies start.open_to(pos(#[trigger] stack@[j])) by {
                        if j < pst.len() {
                            assert(stack@[j] == ost[j]);
                        } else {
                            let q = pos(stack@[j]);
                            lemma_index(w, h, q.0, q.1);
                        }
                    }
                    assert forall|t: Set<(int, int)>| #[trigger] start.cascade_closed(xi, yi, t) implies
                        (forall|p: (int, int)| start.newly(self, xi, yi, p) ==> t.contains(p))
                        && (forall|j: int| 0 <= j < stack@.len() ==> t.contains(pos(stack@[j]))) by {
                        assert(t.contains(pos(ost[ost.len() - 1])));
                        assert forall|p: (int, int)| start.newly(self, xi, yi, p) implies t.contains(p) by {
                            if p != ep {
                                assert(start.newly(&prev, xi, yi, p));
                            }
                        }
                        assert forall|j: int| 0 <= j < stack@.len() implies t.contains(pos(stack@[j])) by {
                            if j < pst.len() {
                                assert(stack@[j] == ost[j]);
                            } else {
                                let k = choose|k: int| 0 <= k < 8 && #[trigger] nb(ep.0, ep.1, k) == pos(stack@[j]);
                                assert(start.open_to(pos(stack@[j])));
                                assert(start.newly(self, xi, yi, ep));
                                assert(t.contains(nb(ep.0, ep.1, k)));
                            }
                        }
                    }
                    assert forall|p: (int, int), k: int|
                        #![trigger start.newly(self, xi, yi, p), nb(p.0, p.1, k)]
                        start.newly(self, xi, yi, p) && 0 <= k < 8 && start.satisfied(p.0, p.1)
                            && start.open_to(nb(p.0, p.1, k))
                        implies self.tile(nb(p.0, p.1, k).0, nb(p.0, p.1, k).1).uncovered
                            || holds_pos(stack@, nb(p.0, p.1, k)) by {
                        let q = nb(p.0, p.1, k);
                        lemma_index(w, h, q.0, q.1);
                        if p == ep {
                            if !self.open_to(q) {
                                assert(self.tile(q.0, q.1).uncovered);
                            }
                        } else {
                            assert(start.newly(&prev, xi, yi, p));
                            if !prev.tile(q.0, q.1).uncovered {
                                assert(holds_pos(ost, q));
                                let j = choose|j: int| 0 <= j < ost.len() && #[trigger] pos(ost[j]) == q;
                                if j < ost.len() - 1 {
                                    assert(stack@[j] == ost[j]);
                                }
                            }
                        }
                    }
                    assert forall|p: (int, int)| start.newly(self, xi, yi, p) && start.tile(p.0, p.1).kind is Mine
                        implies self.game_state == GameState::Lose by {
                        if p != ep {
                            assert(start.newly(&prev, xi, yi, p));
                        }
                    }
                    if forall|p: (int, int)| start.newly(self, xi, yi, p) ==> !(start.tile(p.0, p.1).kind is Mine) {
                        assert forall|p: (int, int)| start.newly(&prev, xi, yi, p) implies !(start.tile(p.0, p.1).kind is Mine) by {
                            assert(start.newly(self, xi, yi, p));
                        }
                        assert(start.newly(self, xi, yi, ep));
                    }
                    lemma_count_update(prev.data@, is_covered(), index_of(w, ep.0, ep.1),
                        Tile { uncovered: true, ..prev.tile(ep.0, ep.1) });
                }
            } else {
                proof {
                    assert forall|p: (int, int), k: int|
                        #![trigger start.newly(self, xi, yi, p), nb(p.0, p.1, k)]
                        start.newly(self, xi, yi, p) && 0 <= k < 8 && start.satisfied(p.0, p.1)
                            && start.open_to(nb(p.0, p.1, k))
                        implies self.tile(nb(p.0, p.1, k).0, nb(p.0, p.1, k).1).uncovered
                            || holds_pos(stack@, nb(p.0, p.1, k)) by {
                        let q = nb(p.0, p.1, k);
                        if !self.tile(q.0, q.1).uncovered {
                            assert(holds_pos(ost, q));
                            let j = choose|j: int| 0 <= j < ost.len() && #[trigger] pos(ost[j]) == q;
                            if j < ost.len() - 1 {
                                assert(stack@[j] == ost[j]);
                            }
                        }
                    }
                    assert forall|t: Set<(int, int)>| #[trigger] start.cascade_closed(xi, yi, t) implies
                        (forall|p: (int, int)| start.newly(self, xi, yi, p) ==> t.contains(p))
                        && (forall|j: int| 0 <= j < stack@.len() ==> t.contains(pos(stack@[j]))) by {
                        assert forall|j: int| 0 <= j < stack@.len() implies t.contains(pos(stack@[j])) by {
                            assert(stack@[j] == ost[j]);
                        }
                    }
                }
            }
        }
        proof {
            let w = self.width as int;
            let h = self.height as int;
            let n = Set::new(|p: (int, int)| start.newly(self, xi, yi, p));
            assert forall|c: (int, int), k: int|
                #![trigger n.contains(c), nb(c.0, c.1, k)]
                n.contains(c) && 0 <= k < 8 && start.in_bounds(c.0, c.1) && start.satisfied(c.0, c.1)
                    && start.open_to(nb(c.0, c.1, k)) implies n.contains(nb(c.0, c.1, k)) by {
                assert(start.newly(self, xi, yi, c));
            }
            assert(start.cascade_closed(xi, yi, n));
            assert forall|i: int, j: int| start.in_bounds(i, j) implies
                #[trigger] self.tile(i, j).uncovered
                    == (start.tile(i, j).uncovered || start.cascade(xi, yi).contains((i, j))) by {
                lemma_index(w, h, i, j);
                if start.cascade(xi, yi).contains((i, j)) {
                    assert(n.contains((i, j)));
                }
                if self.tile(i, j).uncovered && !start.tile(i, j).uncovered {
                    assert(start.newly(self, xi, yi, (i, j)));
                    assert forall|t: Set<(int, int)>| #[trigger] start.cascade_closed(xi, yi, t) implies t.contains((i, j)) by {}
                }
            }
            if start.tile(xi, yi).kind is Mine {
                lemma_mine_reveals_alone(start, xi, yi);
            }
            if start.cascade_hits_mine(xi, yi) {
                let p = choose|p: (int, int)| #[trigger] start.cascade(xi, yi).contains(p) && start.in_bounds(p.0, p.1)
                    && start.tile(p.0, p.1).kind is Mine;
                assert(n.contains(p));
            } else {
                assert forall|p: (int, int)| start.newly(self, xi, yi, p) implies !(start.tile(p.0, p.1).kind is Mine) by {
                    assert forall|t: Set<(int, int)>| #[trigger] start.cascade_closed(xi, yi, t) implies t.contains(p) by {}
                    assert(start.cascade(xi, yi).contains(p));
                }
            }
        }
    }
}

/// Revealing a mine uncovers that cell alone, and the game is lost.
pub proof fn lemma_mine_reveals_alone(b: TileArray, x: int, y: int)
    requires
        b.wf(),
        b.in_bounds(x, y),
        b.tile(x, y).kind is Mine,
    ensures
        b.cascade(x, y) == set![(x, y)],
        b.cascade_hits_mine(x, y),
{
    let t = set![(x, y)];
    assert(b.cascade_closed(x, y, t));
    assert forall|p: (int, int)| #[trigger] b.cascade(x, y).contains(p) == t.contains(p) by {
        if p == (x, y) {
            assert forall|u: Set<(int, int)>| #[trigger] b.cascade_closed(x, y, u) implies u.contains(p) by {}
        }
    }
    assert(b.cascade(x, y) =~= t);
    assert(b.cascade(x, y).contains((x, y)));
}

} // verus!
