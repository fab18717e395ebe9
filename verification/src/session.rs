//! The game session: board, score, play state and live particles, with the
//! turn state machine that ties them together.
//!
//! One turn: a directional input slides the board; if anything moved, the
//! merges are scored, and then either one random tile spawns on an empty cell
//! or — when the slid board is full — the game ends.  A slide that moves
//! nothing changes nothing and spawns nothing.

use vstd::prelude::*;
use crate::board::{
    Board, Direction, SlideOutcome, has_empty_cell, with_tile, grid_sum, occupied_count,
    slid_grid, slide_total, slide_events, lemma_slide_total_bounds, lemma_occupied_bounds,
    lemma_with_tile_count,
};
use crate::line::{SUM_LIMIT, is_tile, pow2};
use crate::particle::{Particle, Rgba, ticked, POS_MAX, PARTICLE_VEL_MAX, PARTICLE_LIFE_MIN,
    PARTICLE_LIFE_MAX};
use crate::rng::{rand_range_usize, rand_u32};

verus! {

/// The play state.  `Victory` is reserved: no transition ever enters it.
#[derive(Clone, Copy, PartialEq, Eq, Structural, Debug)]
pub enum GameStatus {
    Playing,
    GameOver,
    Victory,
}

/// A full game: the board, the accumulated score, the play state, and the
/// live merge-feedback particles.
pub struct GameState {
    pub board: Board,
    pub score: u64,
    pub status: GameStatus,
    pub particles: Vec<Particle>,
}

impl GameState {
    /// Well-formed: the board is well-formed and every live particle is
    /// within the simulation's bounds.
    pub open spec fn wf(&self) -> bool {
        &&& self.board.wf()
        &&& forall|i: int| 0 <= i < self.particles@.len()
            ==> (#[trigger] self.particles@[i]).wf()
    }

    /// A fresh session: empty board, zero score, playing, no particles.
    pub fn new() -> (gs: GameState)
        ensures
            gs.wf(),
            gs.score == 0,
            gs.status == GameStatus::Playing,
            gs.particles@.len() == 0,
            forall|r: int, c: int| 0 <= r < 4 && 0 <= c < 4 ==> (#[trigger] gs.board@[r][c]) == 0,
    {
        GameState {
            board: Board::new(),
            score: 0,
            status: GameStatus::Playing,
            particles: Vec::new(),
        }
    }

    /// Put a 2 or a 4 — equal odds — on one random empty cell.
    fn place_random_tile(board: &mut Board)
        requires
            old(board).wf(),
            has_empty_cell(old(board)@),
            grid_sum(old(board)@) + 4 <= SUM_LIMIT,
        ensures
            final(board).wf(),
            exists|r: int, c: int|
                0 <= r < 4 && 0 <= c < 4 && old(board)@[r][c] == 0
                    && (final(board)@ == with_tile(old(board)@, r, c, 2u32)
                        || final(board)@ == with_tile(old(board)@, r, c, 4u32)),
            occupied_count(final(board)@) == occupied_count(old(board)@) + 1,
            grid_sum(old(board)@) < grid_sum(final(board)@) <= grid_sum(old(board)@) + 4,
    {
        let empties = board.empty_cells();
        let idx = rand_range_usize(0, empties.len());
        let rc = empties[idx];
        let bit = rand_u32() % 2;
        let v: u32 = if bit == 0 {
            2
        } else {
            4
        };
        let ghost g = board@;
        board.set_tile(rc.0, rc.1, v);
        proof {
            lemma_with_tile_count(g, rc.0 as int, rc.1 as int, v);
            assert(is_tile(v)) by {
                assert(pow2(0) == 1);
                assert(pow2(1) == 2 * pow2(0));
                assert(pow2(2) == 2 * pow2(1));
                if v == 2 {
                    assert(1nat >= 1 && v == pow2(1));
                } else {
                    assert(2nat >= 1 && v == pow2(2));
                }
            }
            assert forall|rr: int, cc: int| 0 <= rr < 4 && 0 <= cc < 4 implies
                is_tile(#[trigger] board@[rr][cc]) by {
                if rr == rc.0 as int && cc == rc.1 as int {
                    assert(board@[rr][cc] == v);
                } else {
                    assert(board@[rr][cc] == g[rr][cc]);
                }
            }
        }
    }

    /// Start over: clear the board, seed two or three random tiles of value
    /// 2 or 4, zero the score, clear the particles, and return to play.
    pub fn reset(&mut self)
        ensures
            final(self).wf(),
            final(self).score == 0,
            final(self).status == GameStatus::Playing,
            final(self).particles@.len() == 0,
            2 <= occupied_count(final(self).board@) <= 3,
            forall|r: int, c: int| 0 <= r < 4 && 0 <= c < 4 ==>
                ((#[trigger] final(self).board@[r][c]) == 0
                    || final(self).board@[r][c] == 2 || final(self).board@[r][c] == 4),
    {
        let mut board = Board::new();
        proof {
            assert(occupied_count(board@) == 0) by {
                crate::line::lemma_occ_len4(board@[0]);
                crate::line::lemma_occ_len4(board@[1]);
                crate::line::lemma_occ_len4(board@[2]);
                crate::line::lemma_occ_len4(board@[3]);
            }
        }
        let n = rand_range_usize(2, 4);
        let mut placed: usize = 0;
        while placed < n
            invariant
                2 <= n < 4,
                placed <= n,
                board.wf(),
                occupied_count(board@) == placed as int,
                grid_sum(board@) <= 4 * placed as int,
                forall|r: int, c: int| 0 <= r < 4 && 0 <= c < 4 ==>
                    ((#[trigger] board@[r][c]) == 0 || board@[r][c] == 2 || board@[r][c] == 4),
            decreases n - placed,
        {
            proof {
                lemma_occupied_bounds(board@);
                assert(has_empty_cell(board@));
            }
            let ghost g = board@;
            Self::place_random_tile(&mut board);
            proof {
                let (r, c) = choose|r: int, c: int|
                    0 <= r < 4 && 0 <= c < 4 && g[r][c] == 0
                        && (board@ == with_tile(g, r, c, 2u32)
                            || board@ == with_tile(g, r, c, 4u32));
                assert forall|rr: int, cc: int| 0 <= rr < 4 && 0 <= cc < 4 implies
                    ((#[trigger] board@[rr][cc]) == 0 || board@[rr][cc] == 2
                        || board@[rr][cc] == 4) by {
                    if !(rr == r && cc == c) {
                        assert(board@[rr][cc] == g[rr][cc]);
                    }
                }
            }
            placed = placed + 1;
        }
        self.board = board;
        self.score = 0;
        self.status = GameStatus::Playing;
        self.particles = Vec::new();
    }

    /// One turn.  While playing: slide the board; if any tile moved, add the
    /// merge score, then spawn one random tile (2 or 4) on an empty cell of
    /// the slid board, or end the game when it has none.  When nothing moved,
    /// or the game is not in play, nothing changes and no tile spawns.
    /// Returns the slide's report; its merge events tell the caller where to
    /// spawn feedback particles.
    pub fn step(&mut self, dir: Direction) -> (r: SlideOutcome)
        requires
            old(self).wf(),
            grid_sum(old(self).board@) + 4 <= SUM_LIMIT,
            old(self).score + SUM_LIMIT <= u64::MAX,
        ensures
            final(self).wf(),
            final(self).particles@ == old(self).particles@,
            old(self).status != GameStatus::Playing ==> (
                final(self).board@ == old(self).board@
                    && final(self).score == old(self).score
                    && final(self).status == old(self).status
                    && r.moved == false && r.delta == 0 && r.events@.len() == 0
            ),
            old(self).status == GameStatus::Playing ==> ({
                let g0 = old(self).board@;
                let g1 = slid_grid(g0, dir);
                &&& r.delta == slide_total(g0, dir)
                &&& r.events@ == slide_events(g0, dir)
                &&& (r.moved <==> g1 != g0)
                &&& (!r.moved ==> final(self).board@ == g0
                        && final(self).score == old(self).score
                        && final(self).status == GameStatus::Playing)
                &&& (r.moved ==> final(self).score == old(self).score + r.delta)
                &&& (r.moved && !has_empty_cell(g1) ==> final(self).board@ == g1
                        && final(self).status == GameStatus::GameOver)
                &&& (r.moved && has_empty_cell(g1) ==> final(self).status == GameStatus::Playing
                        && exists|rr: int, cc: int|
                            0 <= rr < 4 && 0 <= cc < 4 && g1[rr][cc] == 0
                                && (final(self).board@ == with_tile(g1, rr, cc, 2u32)
                                    || final(self).board@ == with_tile(g1, rr, cc, 4u32)))
            }),
    {
        if self.status == GameStatus::Playing {
            let ghost g0 = self.board@;
            let outcome = self.board.slide(dir);
            proof {
                lemma_slide_total_bounds(g0, dir);
            }
            if outcome.moved {
                self.score = self.score + outcome.delta as u64;
                if self.board.has_empty() {
                    Self::place_random_tile(&mut self.board);
                } else {
                    self.status = GameStatus::GameOver;
                }
            }
            outcome
        } else {
            SlideOutcome { moved: false, delta: 0, events: Vec::new() }
        }
    }

    /// Spawn `count` burst particles at `(x, y)` — in thousandths of a pixel
    /// — with the given colour, as merge feedback.
    pub fn spawn_burst(&mut self, x: i64, y: i64, color: Rgba, count: usize)
        requires
            old(self).wf(),
            -POS_MAX <= x <= POS_MAX,
            -POS_MAX <= y <= POS_MAX,
            old(self).particles@.len() + count <= usize::MAX,
        ensures
            final(self).wf(),
            final(self).board == old(self).board,
            final(self).score == old(self).score,
            final(self).status == old(self).status,
            final(self).particles@.len() == old(self).particles@.len() + count,
            forall|i: int| 0 <= i < old(self).particles@.len()
                ==> (#[trigger] final(self).particles@[i]) == old(self).particles@[i],
            forall|i: int| old(self).particles@.len() <= i < final(self).particles@.len()
                ==> (#[trigger] final(self).particles@[i]).x == x
                    && final(self).particles@[i].y == y
                    && final(self).particles@[i].color == color
                    && 5 <= final(self).particles@[i].width < 10
                    && final(self).particles@[i].height == final(self).particles@[i].width
                    && -PARTICLE_VEL_MAX <= final(self).particles@[i].vel_x < PARTICLE_VEL_MAX
                    && -PARTICLE_VEL_MAX <= final(self).particles@[i].vel_y < PARTICLE_VEL_MAX
                    && PARTICLE_LIFE_MIN <= final(self).particles@[i].life < PARTICLE_LIFE_MAX,
    {
        let mut made: usize = 0;
        while made < count
            invariant
                made <= count,
                old(self).particles@.len() + count <= usize::MAX,
                -POS_MAX <= x <= POS_MAX,
                -POS_MAX <= y <= POS_MAX,
                self.board == old(self).board,
                self.score == old(self).score,
                self.status == old(self).status,
                self.board.wf(),
                self.particles@.len() == old(self).particles@.len() + made,
                forall|i: int| 0 <= i < old(self).particles@.len()
                    ==> (#[trigger] self.particles@[i]) == old(self).particles@[i],
                forall|i: int| old(self).particles@.len() <= i < self.particles@.len()
                    ==> (#[trigger] self.particles@[i]).x == x
                        && self.particles@[i].y == y
                        && self.particles@[i].color == color
                        && 5 <= self.particles@[i].width < 10
                        && self.particles@[i].height == self.particles@[i].width
                        && -PARTICLE_VEL_MAX <= self.particles@[i].vel_x < PARTICLE_VEL_MAX
                        && -PARTICLE_VEL_MAX <= self.particles@[i].vel_y < PARTICLE_VEL_MAX
                        && PARTICLE_LIFE_MIN <= self.particles@[i].life < PARTICLE_LIFE_MAX,
                forall|i: int| 0 <= i < self.particles@.len()
                    ==> (#[trigger] self.particles@[i]).wf(),
            decreases count - made,
        {
            let p = Particle::new_random(x, y, color);
            self.particles.push(p);
            made = made + 1;
        }
    }

    /// Advance every particle by `dt` milliseconds.
    pub fn tick_particles(&mut self, dt: u32)
        requires
            old(self).wf(),
        ensures
            final(self).wf(),
            final(self).board == old(self).board,
            final(self).score == old(self).score,
            final(self).status == old(self).status,
            final(self).particles@.len() == old(self).particles@.len(),
            forall|i: int| 0 <= i < old(self).particles@.len()
                ==> (#[trigger] final(self).particles@[i])
                    == ticked(old(self).particles@[i], dt),
    {
        let mut i: usize = 0;
        let n = self.particles.len();
        while i < n
            invariant
                i <= n,
                n == old(self).particles@.len(),
                self.board == old(self).board,
                self.score == old(self).score,
                self.status == old(self).status,
                self.board.wf(),
                self.particles@.len() == n,
                forall|j: int| 0 <= j < i
                    ==> (#[trigger] self.particles@[j]) == ticked(old(self).particles@[j], dt),
                forall|j: int| i <= j < n
                    ==> (#[trigger] self.particles@[j]) == old(self).particles@[j],
                forall|j: int| 0 <= j < n ==> (#[trigger] self.particles@[j]).wf(),
            decreases n - i,
        {
            let mut p = self.particles[i];
            p.tick(dt);
            self.particles[i] = p;
            i = i + 1;
        }
    }

    /// Drop every dead particle — life below zero — keeping the rest in
    /// order.
    pub fn prune_particles(&mut self)
        requires
            old(self).wf(),
        ensures
            final(self).wf(),
            final(self).board == old(self).board,
            final(self).score == old(self).score,
            final(self).status == old(self).status,
            final(self).particles@
                == old(self).particles@.filter(|p: Particle| p.life >= 0),
    {
        let ghost all = self.particles@;
        let mut kept: Vec<Particle> = Vec::new();
        let mut i: usize = 0;
        proof {
            assert(all.take(0) =~= Seq::<Particle>::empty());
            assert(Seq::<Particle>::empty().filter(|p: Particle| p.life >= 0)
                =~= Seq::<Particle>::empty()) by {
                reveal(Seq::filter);
            }
        }
        let n = self.particles.len();
        while i < n
            invariant
                i <= n,
                n == all.len(),
                self.particles@ == all,
                self.board == old(self).board,
                self.score == old(self).score,
                self.status == old(self).status,
                self.board.wf(),
                forall|j: int| 0 <= j < n ==> (#[trigger] all[j]).wf(),
                kept@ == all.take(i as int).filter(|p: Particle| p.life >= 0),
                forall|j: int| 0 <= j < kept@.len() ==> (#[trigger] kept@[j]).wf(),
            decreases n - i,
        {
            let p = self.particles[i];
            let ghost pre = kept@;
            if p.is_alive() {
                kept.push(p);
            }
            proof {
                let pred = |q: Particle| q.life >= 0;
                assert(all.take(i as int + 1) =~= all.take(i as int) + seq![all[i as int]]);
                Seq::<Particle>::filter_distributes_over_add(
                    all.take(i as int), seq![all[i as int]], pred);
                assert(seq![all[i as int]].filter(pred)
                    == if pred(all[i as int]) { seq![all[i as int]] }
                       else { Seq::<Particle>::empty() }) by {
                    reveal(Seq::filter);
                    assert(seq![all[i as int]].drop_last() =~= Seq::<Particle>::empty());
                    assert(Seq::<Particle>::empty().filter(pred) =~= Seq::<Particle>::empty());
                }
                if pred(all[i as int]) {
                    assert(kept@ =~= pre + seq![all[i as int]]);
                } else {
                    assert(kept@ =~= pre + Seq::<Particle>::empty());
                }
            }
            i = i + 1;
        }
        proof {
            assert(all.take(n as int) =~= all);
        }
        self.particles = kept;
    }
}

} // verus!
