//! The playing board: a 4×4 grid of tile values with the direction-symmetric
//! slide operation.
//!
//! A slide acts line by line: rows for a horizontal slide, columns for a
//! vertical one, each line read with the cell nearest the target edge first.
//! The per-line rules live in `line`; this module places lines on the grid
//! and states the whole-board effect of a slide.

use vstd::prelude::*;
use crate::line::{
    SUM_LIMIT, occ, slid_line, line_score, line_hits, seq_sum, is_tile, zeros, hits_view,
    slide_line, lemma_zeros_sum, lemma_slid_line_len, lemma_slid_line_sum, lemma_occ_sum,
    lemma_occ_len, lemma_merged_len, lemma_merged_score_bounds, lemma_seq_sum_len4, lemma_hits_distinct, lemma_slid_line_tiles,
    lemma_occ_len4, lemma_score_is_hit_sum, hits_value_sum,
};

verus! {

/// A slide direction.
#[derive(Clone, Copy, PartialEq, Eq, Structural, Debug)]
pub enum Direction {
    Up,
    Down,
    Left,
    Right,
}

/// One merge performed by a slide: the cell where the doubled tile came to
/// rest, and its doubled value.
#[derive(Clone, Copy, PartialEq, Eq, Structural, Debug)]
pub struct MergeEvent {
    pub row: usize,
    pub col: usize,
    pub value: u32,
}

/// What one slide reported: whether any tile changed cell, the score gained
/// by merges, and the merges themselves.
pub struct SlideOutcome {
    pub moved: bool,
    pub delta: u32,
    pub events: Vec<MergeEvent>,
}

/// The board: 16 cells, row-major, origin top-left.
pub struct Board {
    pub cells: Vec<u32>,
}

/// The flat cells read as a 4×4 grid of rows.
pub open spec fn grid_of(cells: Seq<u32>) -> Seq<Seq<u32>> {
    Seq::new(4, |r: int| Seq::new(4, |c: int| cells[4 * r + c]))
}

impl View for Board {
    type V = Seq<Seq<u32>>;

    open spec fn view(&self) -> Seq<Seq<u32>> {
        grid_of(self.cells@)
    }
}

/// Row of the cell at position `k` of line `i` when sliding in `dir`.
pub open spec fn lrow(dir: Direction, i: int, k: int) -> int {
    match dir {
        Direction::Left => i,
        Direction::Right => i,
        Direction::Up => k,
        Direction::Down => 3 - k,
    }
}

/// Column of the cell at position `k` of line `i` when sliding in `dir`.
pub open spec fn lcol(dir: Direction, i: int, k: int) -> int {
    match dir {
        Direction::Left => k,
        Direction::Right => 3 - k,
        Direction::Up => i,
        Direction::Down => i,
    }
}

/// Which line the cell `(r, c)` belongs to when sliding in `dir`.
pub open spec fn line_no(dir: Direction, r: int, c: int) -> int {
    match dir {
        Direction::Left => r,
        Direction::Right => r,
        Direction::Up => c,
        Direction::Down => c,
    }
}

/// Position of the cell `(r, c)` within its line when sliding in `dir`.
pub open spec fn line_pos(dir: Direction, r: int, c: int) -> int {
    match dir {
        Direction::Left => c,
        Direction::Right => 3 - c,
        Direction::Up => r,
        Direction::Down => 3 - r,
    }
}

/// Line `i` of the grid, read with the slide's target edge first.
pub open spec fn line_of(g: Seq<Seq<u32>>, dir: Direction, i: int) -> Seq<u32> {
    Seq::new(4, |k: int| g[lrow(dir, i, k)][lcol(dir, i, k)])
}

/// The whole grid after sliding in `dir`: every line slid in place.
pub open spec fn slid_grid(g: Seq<Seq<u32>>, dir: Direction) -> Seq<Seq<u32>> {
    Seq::new(4, |r: int| Seq::new(4, |c: int|
        slid_line(line_of(g, dir, line_no(dir, r, c)))[line_pos(dir, r, c)]))
}

/// Total tile value on the board.
pub open spec fn grid_sum(g: Seq<Seq<u32>>) -> int {
    seq_sum(g[0]) + seq_sum(g[1]) + seq_sum(g[2]) + seq_sum(g[3])
}

/// Score of sliding the first `i` lines.
pub open spec fn slide_total_upto(g: Seq<Seq<u32>>, dir: Direction, i: int) -> int
    decreases i,
{
    if i <= 0 {
        0
    } else {
        slide_total_upto(g, dir, i - 1) + line_score(line_of(g, dir, i - 1))
    }
}

/// Score of a slide: the sum of the four line scores.
pub open spec fn slide_total(g: Seq<Seq<u32>>, dir: Direction) -> int {
    slide_total_upto(g, dir, 4)
}

/// A merge of line `i` placed on its board cell.
pub open spec fn hit_event(dir: Direction, i: int, h: (int, u32)) -> MergeEvent {
    MergeEvent {
        row: lrow(dir, i, h.0) as usize,
        col: lcol(dir, i, h.0) as usize,
        value: h.1,
    }
}

/// The merges of line `i`, as board cells.
pub open spec fn line_events(g: Seq<Seq<u32>>, dir: Direction, i: int) -> Seq<MergeEvent> {
    line_hits(line_of(g, dir, i)).map_values(|h: (int, u32)| hit_event(dir, i, h))
}

/// The merges of the first `i` lines, in order.
pub open spec fn slide_events_upto(g: Seq<Seq<u32>>, dir: Direction, i: int) -> Seq<MergeEvent>
    decreases i,
{
    if i <= 0 {
        Seq::empty()
    } else {
        slide_events_upto(g, dir, i - 1) + line_events(g, dir, i - 1)
    }
}

/// All merges of a slide, line by line.
pub open spec fn slide_events(g: Seq<Seq<u32>>, dir: Direction) -> Seq<MergeEvent> {
    slide_events_upto(g, dir, 4)
}

/// Whether any cell of the grid is empty.
pub open spec fn has_empty_cell(g: Seq<Seq<u32>>) -> bool {
    exists|r: int, c: int| 0 <= r < 4 && 0 <= c < 4 && (#[trigger] g[r][c]) == 0
}

/// The grid with the tile at `(r, c)` replaced by `v`.
pub open spec fn with_tile(g: Seq<Seq<u32>>, r: int, c: int, v: u32) -> Seq<Seq<u32>> {
    Seq::new(4, |rr: int| Seq::new(4, |cc: int| if rr == r && cc == c { v } else { g[rr][cc] }))
}

/// Number of occupied cells on the grid.
pub open spec fn occupied_count(g: Seq<Seq<u32>>) -> int {
    occ(g[0]).len() + occ(g[1]).len() + occ(g[2]).len() + occ(g[3]).len() as int
}

impl Board {
    /// Well-formed: 16 cells, every value a legal tile, total value bounded.
    pub open spec fn wf(&self) -> bool {
        &&& self.cells@.len() == 16
        &&& grid_sum(self@) <= SUM_LIMIT
        &&& forall|r: int, c: int| 0 <= r < 4 && 0 <= c < 4 ==> is_tile(#[trigger] self@[r][c])
    }

    /// An empty board.
    pub fn new() -> (b: Board)
        ensures
            b.wf(),
            forall|r: int, c: int| 0 <= r < 4 && 0 <= c < 4 ==> (#[trigger] b@[r][c]) == 0,
            grid_sum(b@) == 0,
    {
        let mut cells: Vec<u32> = Vec::new();
        let mut i: usize = 0;
        while i < 16
            invariant
                i <= 16,
                cells@.len() == i as int,
                forall|k: int| 0 <= k < i ==> (#[trigger] cells@[k]) == 0,
            decreases 16 - i,
        {
            cells.push(0);
            i = i + 1;
        }
        let b = Board { cells };
        proof {
            assert(b@[0] =~= zeros(4));
            assert(b@[1] =~= zeros(4));
            assert(b@[2] =~= zeros(4));
            assert(b@[3] =~= zeros(4));
            lemma_zeros_sum(4);
        }
        b
    }

    /// Read one cell.
    pub fn get_tile(&self, r: usize, c: usize) -> (v: u32)
        requires
            r < 4,
            c < 4,
            self.cells@.len() == 16,
        ensures
            v == self@[r as int][c as int],
    {
        self.cells[4 * r + c]
    }

    /// Write one cell.
    pub fn set_tile(&mut self, r: usize, c: usize, v: u32)
        requires
            r < 4,
            c < 4,
            old(self).cells@.len() == 16,
        ensures
            final(self).cells@.len() == 16,
            final(self)@ == with_tile(old(self)@, r as int, c as int, v),
    {
        self.cells[4 * r + c] = v;
        proof {
            assert(self@ =~~= with_tile(old(self)@, r as int, c as int, v));
        }
    }

    /// Board coordinates of position `k` of line `i` when sliding in `dir`.
    fn line_coords(dir: Direction, i: usize, k: usize) -> (rc: (usize, usize))
        requires
            i < 4,
            k < 4,
        ensures
            rc.0 == lrow(dir, i as int, k as int),
            rc.1 == lcol(dir, i as int, k as int),
            rc.0 < 4,
            rc.1 < 4,
    {
        match dir {
            Direction::Left => (i, k),
            Direction::Right => (i, 3 - k),
            Direction::Up => (k, i),
            Direction::Down => (3 - k, i),
        }
    }

    /// Copy line `i` out of the board, target edge first.
    fn get_line(&self, dir: Direction, i: usize) -> (l: Vec<u32>)
        requires
            i < 4,
            self.cells@.len() == 16,
        ensures
            l@ == line_of(self@, dir, i as int),
            l@.len() == 4,
    {
        let mut l: Vec<u32> = Vec::new();
        let mut k: usize = 0;
        while k < 4
            invariant
                k <= 4,
                i < 4,
                self.cells@.len() == 16,
                l@.len() == k as int,
                forall|t: int| 0 <= t < k ==> (#[trigger] l@[t]) == line_of(self@, dir, i as int)[t],
            decreases 4 - k,
        {
            let rc = Self::line_coords(dir, i, k);
            let v = self.get_tile(rc.0, rc.1);
            l.push(v);
            k = k + 1;
        }
        proof {
            assert(l@ =~= line_of(self@, dir, i as int));
        }
        l
    }

    /// Write line `i` back onto the board, target edge first; other lines are
    /// untouched.
    fn set_line(&mut self, dir: Direction, i: usize, l: &Vec<u32>)
        requires
            i < 4,
            l@.len() == 4,
            old(self).cells@.len() == 16,
        ensures
            final(self).cells@.len() == 16,
            line_of(final(self)@, dir, i as int) == l@,
            forall|r: int, c: int|
                0 <= r < 4 && 0 <= c < 4 && line_no(dir, r, c) != i
                    ==> (#[trigger] final(self)@[r][c]) == old(self)@[r][c],
            forall|r: int, c: int|
                0 <= r < 4 && 0 <= c < 4 && line_no(dir, r, c) == i
                    ==> (#[trigger] final(self)@[r][c]) == l@[line_pos(dir, r, c)],
    {
        let mut k: usize = 0;
        while k < 4
            invariant
                k <= 4,
                i < 4,
                l@.len() == 4,
                self.cells@.len() == 16,
                forall|r: int, c: int|
                    0 <= r < 4 && 0 <= c < 4
                        && !(line_no(dir, r, c) == i && line_pos(dir, r, c) < k)
                        ==> (#[trigger] self@[r][c]) == old(self)@[r][c],
                forall|r: int, c: int|
                    0 <= r < 4 && 0 <= c < 4
                        && line_no(dir, r, c) == i && line_pos(dir, r, c) < k
                        ==> (#[trigger] self@[r][c]) == l@[line_pos(dir, r, c)],
            decreases 4 - k,
        {
            let rc = Self::line_coords(dir, i, k);
            let v = l[k];
            self.set_tile(rc.0, rc.1, v);
            k = k + 1;
        }
        proof {
            assert(line_of(self@, dir, i as int) =~= l@);
        }
    }
}

/// A grid has an occupied-cell count of 16 exactly when it has no empty
/// cell, and never more than 16.
pub proof fn lemma_occupied_bounds(g: Seq<Seq<u32>>)
    requires
        g.len() == 4,
        forall|j: int| 0 <= j < 4 ==> (#[trigger] g[j]).len() == 4,
    ensures
        0 <= occupied_count(g) <= 16,
        (occupied_count(g) == 16) <==> !has_empty_cell(g),
{
    lemma_occ_len4(g[0]);
    lemma_occ_len4(g[1]);
    lemma_occ_len4(g[2]);
    lemma_occ_len4(g[3]);
    if occupied_count(g) == 16 {
        assert(forall|r: int, c: int| 0 <= r < 4 && 0 <= c < 4 ==> (#[trigger] g[r][c]) != 0);
    }
    if !has_empty_cell(g) {
        assert(forall|r: int, c: int| 0 <= r < 4 && 0 <= c < 4 ==> (#[trigger] g[r][c]) != 0);
    }
}

/// Placing a nonzero tile on an empty cell raises the occupied count by one
/// and the total by the tile's value.
#[verifier::rlimit(50)]
pub proof fn lemma_with_tile_count(g: Seq<Seq<u32>>, r: int, c: int, v: u32)
    requires
        g.len() == 4,
        forall|j: int| 0 <= j < 4 ==> (#[trigger] g[j]).len() == 4,
        0 <= r < 4,
        0 <= c < 4,
        g[r][c] == 0,
        v != 0,
    ensures
        occupied_count(with_tile(g, r, c, v)) == occupied_count(g) + 1,
        grid_sum(with_tile(g, r, c, v)) == grid_sum(g) + v,
{
    let g2 = with_tile(g, r, c, v);
    assert forall|rr: int| 0 <= rr < 4 && rr != r implies g2[rr] =~= #[trigger] g[rr] by {
        assert(forall|cc: int| 0 <= cc < 4 ==> (#[trigger] g2[rr][cc]) == g[rr][cc]);
    }
    assert(forall|cc: int| 0 <= cc < 4 && cc != c ==> (#[trigger] g2[r][cc]) == g[r][cc]);
    assert(g2[r][c] == v);
    lemma_occ_len4(g[r]);
    lemma_occ_len4(g2[r]);
    lemma_seq_sum_len4(g[r]);
    lemma_seq_sum_len4(g2[r]);
}

/// The total value of a sequence of merges.
pub open spec fn event_value_sum(es: Seq<MergeEvent>) -> int
    decreases es.len(),
{
    if es.len() == 0 {
        0
    } else {
        es[0].value + event_value_sum(es.skip(1))
    }
}

/// Event-value sums are additive over concatenation.
pub proof fn lemma_event_value_sum_add(a: Seq<MergeEvent>, b: Seq<MergeEvent>)
    ensures
        event_value_sum(a + b) == event_value_sum(a) + event_value_sum(b),
    decreases a.len(),
{
    if a.len() == 0 {
        assert(a + b =~= b);
    } else {
        assert((a + b).skip(1) =~= a.skip(1) + b);
        lemma_event_value_sum_add(a.skip(1), b);
    }
}

/// Placing a line's merges on the board keeps their values.
pub proof fn lemma_line_events_value_sum(g: Seq<Seq<u32>>, dir: Direction, i: int, h: Seq<(int, u32)>)
    ensures
        event_value_sum(h.map_values(|e: (int, u32)| hit_event(dir, i, e))) == hits_value_sum(h),
    decreases h.len(),
{
    let m = h.map_values(|e: (int, u32)| hit_event(dir, i, e));
    if h.len() > 0 {
        lemma_line_events_value_sum(g, dir, i, h.skip(1));
        assert(m.skip(1) =~= h.skip(1).map_values(|e: (int, u32)| hit_event(dir, i, e)));
        assert(m[0] == hit_event(dir, i, h[0]));
        assert(event_value_sum(m) == m[0].value + event_value_sum(m.skip(1)));
    }
}

/// Conservation: a slide never changes the board's total tile value, and the
/// score it reports is exactly the sum of the values of the merges it
/// reports.
pub proof fn lemma_slide_conservation(g: Seq<Seq<u32>>, dir: Direction)
    requires
        g.len() == 4,
        forall|j: int| 0 <= j < 4 ==> (#[trigger] g[j]).len() == 4,
        grid_sum(g) <= SUM_LIMIT,
    ensures
        grid_sum(slid_grid(g, dir)) == grid_sum(g),
        slide_total(g, dir) == event_value_sum(slide_events(g, dir)),
{
    lemma_slide_total_bounds(g, dir);
    let g1 = slid_grid(g, dir);
    assert(g1.len() == 4);
    assert(forall|j: int| 0 <= j < 4 ==> (#[trigger] g1[j]).len() == 4);
    lemma_slide_total_bounds(g1, dir);
    assert forall|j: int| 0 <= j < 4 implies
        seq_sum(#[trigger] line_of(g1, dir, j)) == seq_sum(line_of(g, dir, j)) by {
        lemma_line_of_slid(g, dir, j);
        lemma_slid_line_sum(line_of(g, dir, j));
    }
    assert forall|j: int| 0 <= j < 4 implies
        event_value_sum(#[trigger] line_events(g, dir, j)) == line_score(line_of(g, dir, j)) by {
        let l = line_of(g, dir, j);
        lemma_occ_sum(l);
        lemma_score_is_hit_sum(occ(l), 0);
        lemma_line_events_value_sum(g, dir, j, line_hits(l));
        assert(line_events(g, dir, j)
            =~= line_hits(l).map_values(|e: (int, u32)| hit_event(dir, j, e)));
    }
    lemma_upto_steps(g, dir);
    assert(event_value_sum(Seq::<MergeEvent>::empty()) == 0);
    lemma_event_value_sum_add(slide_events_upto(g, dir, 0), line_events(g, dir, 0));
    lemma_event_value_sum_add(slide_events_upto(g, dir, 1), line_events(g, dir, 1));
    lemma_event_value_sum_add(slide_events_upto(g, dir, 2), line_events(g, dir, 2));
    lemma_event_value_sum_add(slide_events_upto(g, dir, 3), line_events(g, dir, 3));
}

/// The merges of one line land in that line, on strictly increasing
/// positions.
proof fn lemma_line_events_cells(g: Seq<Seq<u32>>, dir: Direction, i: int)
    requires
        0 <= i < 4,
    ensures
        forall|u: int| 0 <= u < line_events(g, dir, i).len() ==> {
            let e = #[trigger] line_events(g, dir, i)[u];
            &&& e.row < 4
            &&& e.col < 4
            &&& line_no(dir, e.row as int, e.col as int) == i
            &&& line_pos(dir, e.row as int, e.col as int) == line_hits(line_of(g, dir, i))[u].0
        },
        forall|u: int, w: int| 0 <= u < w < line_events(g, dir, i).len()
            ==> line_hits(line_of(g, dir, i))[u].0 < line_hits(line_of(g, dir, i))[w].0,
{
    lemma_coords(dir);
    let l = line_of(g, dir, i);
    lemma_hits_distinct(occ(l), 0);
    lemma_merged_len(occ(l));
    lemma_occ_len(l);
    assert forall|u: int| 0 <= u < line_events(g, dir, i).len() implies {
        let e = #[trigger] line_events(g, dir, i)[u];
        &&& e.row < 4
        &&& e.col < 4
        &&& line_no(dir, e.row as int, e.col as int) == i
        &&& line_pos(dir, e.row as int, e.col as int) == line_hits(l)[u].0
    } by {
        let h = line_hits(l)[u];
        assert(line_events(g, dir, i)[u] == hit_event(dir, i, h));
        assert(0 <= h.0 < 4);
        assert(lrow(dir, i, h.0) as usize as int == lrow(dir, i, h.0));
        assert(lcol(dir, i, h.0) as usize as int == lcol(dir, i, h.0));
    }
}

/// A slide's per-line accumulations, unfolded line by line: the merge
/// reports, their lengths, and the score.
proof fn lemma_upto_steps(g: Seq<Seq<u32>>, dir: Direction)
    ensures
        slide_events_upto(g, dir, 0) == Seq::<MergeEvent>::empty(),
        slide_events_upto(g, dir, 1)
            == slide_events_upto(g, dir, 0) + line_events(g, dir, 0),
        slide_events_upto(g, dir, 2)
            == slide_events_upto(g, dir, 1) + line_events(g, dir, 1),
        slide_events_upto(g, dir, 3)
            == slide_events_upto(g, dir, 2) + line_events(g, dir, 2),
        slide_events_upto(g, dir, 4)
            == slide_events_upto(g, dir, 3) + line_events(g, dir, 3),
        forall|j: int| 0 <= j < 4 ==> #[trigger] slide_events_upto(g, dir, j + 1).len()
            == slide_events_upto(g, dir, j).len() + line_events(g, dir, j).len(),
        slide_total_upto(g, dir, 0) == 0,
        slide_total_upto(g, dir, 1)
            == slide_total_upto(g, dir, 0) + line_score(line_of(g, dir, 0)),
        slide_total_upto(g, dir, 2)
            == slide_total_upto(g, dir, 1) + line_score(line_of(g, dir, 1)),
        slide_total_upto(g, dir, 3)
            == slide_total_upto(g, dir, 2) + line_score(line_of(g, dir, 2)),
        slide_total_upto(g, dir, 4)
            == slide_total_upto(g, dir, 3) + line_score(line_of(g, dir, 3)),
{
    assert(slide_events_upto(g, dir, 0) =~= Seq::<MergeEvent>::empty());
    assert forall|j: int| 0 <= j < 4 implies #[trigger] slide_events_upto(g, dir, j + 1).len()
        == slide_events_upto(g, dir, j).len() + line_events(g, dir, j).len() by {
        if j == 0 {
        } else if j == 1 {
        } else if j == 2 {
        } else {
        }
    }
}

/// The board cell of the merge at index `t` of a slide's report: the line it
/// belongs to and its place within that line's merges.
proof fn lemma_event_at(g: Seq<Seq<u32>>, dir: Direction, t: int) -> (iu: (int, int))
    requires
        0 <= t < slide_events(g, dir).len(),
    ensures
        ({
            let (i, u) = iu;
            &&& 0 <= i < 4
            &&& 0 <= u < line_events(g, dir, i).len()
            &&& slide_events(g, dir)[t] == line_events(g, dir, i)[u]
            &&& t == slide_events_upto(g, dir, i).len() + u
            &&& slide_events_upto(g, dir, i + 1).len()
                == slide_events_upto(g, dir, i).len() + line_events(g, dir, i).len()
        }),
        forall|j: int| 0 <= j < 4 ==> #[trigger] slide_events_upto(g, dir, j + 1).len()
            == slide_events_upto(g, dir, j).len() + line_events(g, dir, j).len(),
{
    lemma_upto_steps(g, dir);
    let n0 = slide_events_upto(g, dir, 1).len() as int;
    let n1 = slide_events_upto(g, dir, 2).len() as int;
    let n2 = slide_events_upto(g, dir, 3).len() as int;
    if t < n0 {
        assert(slide_events(g, dir)[t] == line_events(g, dir, 0)[t]);
        (0, t)
    } else if t < n1 {
        assert(slide_events(g, dir)[t] == line_events(g, dir, 1)[t - n0]);
        (1, t - n0)
    } else if t < n2 {
        assert(slide_events(g, dir)[t] == line_events(g, dir, 2)[t - n1]);
        (2, t - n1)
    } else {
        assert(slide_events(g, dir)[t] == line_events(g, dir, 3)[t - n2]);
        (3, t - n2)
    }
}

/// No tile is the product of two merges in the same slide: every two merges
/// of one slide's report land on distinct cells.
pub proof fn lemma_no_double_merge(g: Seq<Seq<u32>>, dir: Direction)
    ensures
        forall|a: int, b: int| 0 <= a < b < slide_events(g, dir).len()
            ==> (#[trigger] slide_events(g, dir)[a]).row != (#[trigger] slide_events(g, dir)[b]).row
                || slide_events(g, dir)[a].col != slide_events(g, dir)[b].col,
{
    lemma_coords(dir);
    assert forall|a: int, b: int| 0 <= a < b < slide_events(g, dir).len() implies
        (#[trigger] slide_events(g, dir)[a]).row != (#[trigger] slide_events(g, dir)[b]).row
            || slide_events(g, dir)[a].col != slide_events(g, dir)[b].col by {
        lemma_upto_steps(g, dir);
        let (ia, ua) = lemma_event_at(g, dir, a);
        let (ib, ub) = lemma_event_at(g, dir, b);
        lemma_line_events_cells(g, dir, ia);
        lemma_line_events_cells(g, dir, ib);
        let ea = slide_events(g, dir)[a];
        let eb = slide_events(g, dir)[b];
        if ia == ib {
            assert(ua < ub);
            assert(line_hits(line_of(g, dir, ia))[ua].0 < line_hits(line_of(g, dir, ib))[ub].0);
            assert(line_pos(dir, ea.row as int, ea.col as int)
                != line_pos(dir, eb.row as int, eb.col as int));
        } else if ia < ib {
            assert(a >= slide_events_upto(g, dir, ia).len());
            assert(slide_events_upto(g, dir, ia + 1).len() <= slide_events_upto(g, dir, ib).len());
            assert(line_no(dir, ea.row as int, ea.col as int)
                != line_no(dir, eb.row as int, eb.col as int));
        } else {
            assert(b >= slide_events_upto(g, dir, ib).len());
            assert(slide_events_upto(g, dir, ib + 1).len() <= slide_events_upto(g, dir, ia).len());
            assert(false);
        }
    }
}

/// The line coordinate maps are mutually inverse bijections between
/// `(line, position)` pairs and board cells.
pub proof fn lemma_coords(dir: Direction)
    ensures
        forall|i: int, k: int| 0 <= i < 4 && 0 <= k < 4 ==> {
            &&& line_no(dir, #[trigger] lrow(dir, i, k), lcol(dir, i, k)) == i
            &&& line_pos(dir, lrow(dir, i, k), lcol(dir, i, k)) == k
            &&& 0 <= lrow(dir, i, k) < 4
            &&& 0 <= lcol(dir, i, k) < 4
        },
        forall|r: int, c: int| 0 <= r < 4 && 0 <= c < 4 ==> {
            &&& lrow(dir, #[trigger] line_no(dir, r, c), line_pos(dir, r, c)) == r
            &&& lcol(dir, line_no(dir, r, c), line_pos(dir, r, c)) == c
            &&& 0 <= line_no(dir, r, c) < 4
            &&& 0 <= line_pos(dir, r, c) < 4
        },
{
}

/// The four lines of a slide partition the board: their sums add up to the
/// board's total, each line score is bounded by its line's sum, and every
/// partial slide score is bounded by the board's total.
#[verifier::rlimit(50)]
pub proof fn lemma_slide_total_bounds(g: Seq<Seq<u32>>, dir: Direction)
    requires
        g.len() == 4,
        forall|j: int| 0 <= j < 4 ==> (#[trigger] g[j]).len() == 4,
    ensures
        seq_sum(line_of(g, dir, 0)) + seq_sum(line_of(g, dir, 1)) + seq_sum(line_of(g, dir, 2))
            + seq_sum(line_of(g, dir, 3)) == grid_sum(g),
        forall|i: int| 0 <= i < 4
            ==> 0 <= line_score(#[trigger] line_of(g, dir, i)) <= seq_sum(line_of(g, dir, i)),
        forall|i: int| 0 <= i < 4 ==> 0 <= seq_sum(#[trigger] line_of(g, dir, i)) <= grid_sum(g),
        forall|i: int| 0 <= i <= 4 ==> 0 <= #[trigger] slide_total_upto(g, dir, i) <= grid_sum(g),
{
    lemma_seq_sum_len4(g[0]);
    lemma_seq_sum_len4(g[1]);
    lemma_seq_sum_len4(g[2]);
    lemma_seq_sum_len4(g[3]);
    assert forall|i: int| 0 <= i < 4 implies
        0 <= line_score(#[trigger] line_of(g, dir, i)) <= seq_sum(line_of(g, dir, i)) by {
        lemma_occ_sum(line_of(g, dir, i));
        lemma_merged_score_bounds(occ(line_of(g, dir, i)));
    }
    lemma_seq_sum_len4(line_of(g, dir, 0));
    lemma_seq_sum_len4(line_of(g, dir, 1));
    lemma_seq_sum_len4(line_of(g, dir, 2));
    lemma_seq_sum_len4(line_of(g, dir, 3));
    assert(slide_total_upto(g, dir, 0) == 0);
    assert(slide_total_upto(g, dir, 1)
        == slide_total_upto(g, dir, 0) + line_score(line_of(g, dir, 0)));
    assert(slide_total_upto(g, dir, 2)
        == slide_total_upto(g, dir, 1) + line_score(line_of(g, dir, 1)));
    assert(slide_total_upto(g, dir, 3)
        == slide_total_upto(g, dir, 2) + line_score(line_of(g, dir, 2)));
    assert(slide_total_upto(g, dir, 4)
        == slide_total_upto(g, dir, 3) + line_score(line_of(g, dir, 3)));
    assert forall|i: int| 0 <= i <= 4 implies
        0 <= #[trigger] slide_total_upto(g, dir, i) <= grid_sum(g) by {
        if i == 0 {
        } else if i == 1 {
        } else if i == 2 {
        } else if i == 3 {
        } else {
        }
    }
}

/// Reading a line out of a slid grid gives the slid line.
pub proof fn lemma_line_of_slid(g: Seq<Seq<u32>>, dir: Direction, j: int)
    requires
        0 <= j < 4,
    ensures
        line_of(slid_grid(g, dir), dir, j) == slid_line(line_of(g, dir, j)),
{
    lemma_coords(dir);
    lemma_slid_line_len(line_of(g, dir, j));
    assert forall|k: int| 0 <= k < 4 implies
        line_of(slid_grid(g, dir), dir, j)[k] == slid_line(line_of(g, dir, j))[k] by {
        let r = lrow(dir, j, k);
        let c = lcol(dir, j, k);
        assert(line_of(slid_grid(g, dir), dir, j)[k] == slid_grid(g, dir)[r][c]);
        assert(slid_grid(g, dir)[r][c]
            == slid_line(line_of(g, dir, line_no(dir, r, c)))[line_pos(dir, r, c)]);
    }
    assert(line_of(slid_grid(g, dir), dir, j) =~= slid_line(line_of(g, dir, j)));
}

/// A slide leaves the board unchanged exactly when it leaves every line
/// unchanged.
pub proof fn lemma_slid_grid_fixed(g: Seq<Seq<u32>>, dir: Direction)
    requires
        g.len() == 4,
        forall|j: int| 0 <= j < 4 ==> (#[trigger] g[j]).len() == 4,
    ensures
        (slid_grid(g, dir) == g) <==> (forall|j: int| 0 <= j < 4
            ==> slid_line(#[trigger] line_of(g, dir, j)) == line_of(g, dir, j)),
{
    lemma_coords(dir);
    if slid_grid(g, dir) == g {
        assert forall|j: int| 0 <= j < 4 implies
            slid_line(#[trigger] line_of(g, dir, j)) == line_of(g, dir, j) by {
            lemma_line_of_slid(g, dir, j);
            assert(line_of(slid_grid(g, dir), dir, j) =~= line_of(g, dir, j));
        }
    }
    if forall|j: int| 0 <= j < 4
        ==> slid_line(#[trigger] line_of(g, dir, j)) == line_of(g, dir, j) {
        assert forall|r: int| 0 <= r < 4 implies slid_grid(g, dir)[r] =~= g[r] by {
            assert forall|c: int| 0 <= c < 4 implies slid_grid(g, dir)[r][c] == g[r][c] by {
                let j = line_no(dir, r, c);
                let k = line_pos(dir, r, c);
                assert(slid_grid(g, dir)[r][c] == slid_line(line_of(g, dir, j))[k]);
                assert(line_of(g, dir, j)[k] == g[r][c]);
            }
        }
        assert(slid_grid(g, dir) =~~= g);
    }
}

/// Element-wise equality of two lines.
fn vecs_equal(a: &Vec<u32>, b: &Vec<u32>) -> (r: bool)
    ensures
        r <==> a@ == b@,
{
    if a.len() != b.len() {
        return false;
    }
    let mut i: usize = 0;
    while i < a.len()
        invariant
            i <= a@.len(),
            a@.len() == b@.len(),
            forall|t: int| 0 <= t < i ==> a@[t] == b@[t],
        decreases a@.len() - i,
    {
        if a[i] != b[i] {
            return false;
        }
        i = i + 1;
    }
    proof {
        assert(a@ =~= b@);
    }
    true
}

impl Board {
    /// Whether any cell of the board is empty.
    pub fn has_empty(&self) -> (r: bool)
        requires
            self.cells@.len() == 16,
        ensures
            r <==> has_empty_cell(self@),
    {
        let v = self.empty_cells();
        v.len() > 0
    }

    /// Some empty cells of the board — every listed cell is empty, and the
    /// list is empty only when the board is full.
    pub fn empty_cells(&self) -> (v: Vec<(usize, usize)>)
        requires
            self.cells@.len() == 16,
        ensures
            forall|t: int| 0 <= t < v@.len() ==> (#[trigger] v@[t]).0 < 4 && v@[t].1 < 4
                && self@[v@[t].0 as int][v@[t].1 as int] == 0,
            (v@.len() > 0) <==> has_empty_cell(self@),
    {
        let mut v: Vec<(usize, usize)> = Vec::new();
        let mut r: usize = 0;
        while r < 4
            invariant
                r <= 4,
                self.cells@.len() == 16,
                forall|t: int| 0 <= t < v@.len() ==> (#[trigger] v@[t]).0 < 4 && v@[t].1 < 4
                    && self@[v@[t].0 as int][v@[t].1 as int] == 0,
                v@.len() > 0 || forall|rr: int, cc: int|
                    0 <= rr < r && 0 <= cc < 4 ==> (#[trigger] self@[rr][cc]) != 0,
            decreases 4 - r,
        {
            let mut c: usize = 0;
            while c < 4
                invariant
                    c <= 4,
                    r < 4,
                    self.cells@.len() == 16,
                    forall|t: int| 0 <= t < v@.len() ==> (#[trigger] v@[t]).0 < 4 && v@[t].1 < 4
                        && self@[v@[t].0 as int][v@[t].1 as int] == 0,
                    v@.len() > 0 || (forall|rr: int, cc: int|
                        0 <= rr < r && 0 <= cc < 4 ==> (#[trigger] self@[rr][cc]) != 0)
                        && (forall|cc: int| 0 <= cc < c ==> (#[trigger] self@[r as int][cc]) != 0),
                decreases 4 - c,
            {
                if self.get_tile(r, c) == 0 {
                    v.push((r, c));
                }
                c = c + 1;
            }
            r = r + 1;
        }
        proof {
            if v@.len() > 0 {
                let t = v@[0];
                assert(self@[t.0 as int][t.1 as int] == 0);
                assert(has_empty_cell(self@));
            } else {
                assert(forall|rr: int, cc: int| 0 <= rr < 4 && 0 <= cc < 4
                    ==> (#[trigger] self@[rr][cc]) != 0);
            }
        }
        v
    }

    /// Slide every tile of the board in `dir`, merging equal neighbours once
    /// each, per the line rules.  Reports whether any cell changed, the score
    /// gained, and each merge's resting cell with its doubled value.
    pub fn slide(&mut self, dir: Direction) -> (r: SlideOutcome)
        requires
            old(self).wf(),
        ensures
            final(self).wf(),
            final(self)@ == slid_grid(old(self)@, dir),
            grid_sum(final(self)@) == grid_sum(old(self)@),
            r.delta == slide_total(old(self)@, dir),
            r.events@ == slide_events(old(self)@, dir),
            r.moved <==> final(self)@ != old(self)@,
    {
        let ghost g0 = self@;
        proof {
            assert(g0.len() == 4);
            assert(forall|j: int| 0 <= j < 4 ==> (#[trigger] g0[j]).len() == 4);
            lemma_slide_total_bounds(g0, dir);
            lemma_coords(dir);
        }
        let mut delta: u32 = 0;
        let mut events: Vec<MergeEvent> = Vec::new();
        let mut moved = false;
        proof {
            assert(events@ =~= slide_events_upto(g0, dir, 0) + Seq::<MergeEvent>::empty());
            assert(events@ =~= slide_events_upto(g0, dir, 0));
        }
        let mut i: usize = 0;
        while i < 4
            invariant
                i <= 4,
                self.cells@.len() == 16,
                g0.len() == 4,
                forall|j: int| 0 <= j < 4 ==> (#[trigger] g0[j]).len() == 4,
                grid_sum(g0) <= SUM_LIMIT,
                forall|j: int| 0 <= j < i
                    ==> line_of(self@, dir, j) == slid_line(#[trigger] line_of(g0, dir, j)),
                forall|j: int| i <= j < 4
                    ==> line_of(self@, dir, j) == #[trigger] line_of(g0, dir, j),
                delta == slide_total_upto(g0, dir, i as int),
                events@ == slide_events_upto(g0, dir, i as int),
                moved <==> exists|j: int| 0 <= j < i
                    && slid_line(#[trigger] line_of(g0, dir, j)) != line_of(g0, dir, j),
            decreases 4 - i,
        {
            proof {
                lemma_slide_total_bounds(g0, dir);
            }
            let l = self.get_line(dir, i);
            let res = slide_line(&l);
            let nl = res.0;
            let sc = res.1;
            let hits = res.2;
            let ghost gpre = self@;
            self.set_line(dir, i, &nl);
            proof {
                lemma_coords(dir);
                assert forall|j: int| 0 <= j < 4 && j != i as int implies
                    line_of(self@, dir, j) == line_of(gpre, dir, j) by {
                    assert forall|k: int| 0 <= k < 4 implies
                        line_of(self@, dir, j)[k] == line_of(gpre, dir, j)[k] by {
                        let rr = lrow(dir, j, k);
                        let cc = lcol(dir, j, k);
                        assert(line_no(dir, rr, cc) == j);
                        assert(self@[rr][cc] == gpre[rr][cc]);
                    }
                    assert(line_of(self@, dir, j) =~= line_of(gpre, dir, j));
                }
                assert(line_of(self@, dir, i as int) == nl@);
            }
            delta = delta + sc;
            let changed = !vecs_equal(&l, &nl);
            if changed {
                moved = true;
            }
            let ghost hl = line_hits(line_of(g0, dir, i as int));
            proof {
                lemma_hits_distinct(occ(line_of(g0, dir, i as int)), 0);
                lemma_merged_len(occ(line_of(g0, dir, i as int)));
                lemma_occ_len(line_of(g0, dir, i as int));
            }
            let mut t: usize = 0;
            proof {
                assert(line_events(g0, dir, i as int).take(0) =~= Seq::<MergeEvent>::empty());
                assert(events@ =~= slide_events_upto(g0, dir, i as int)
                    + line_events(g0, dir, i as int).take(0));
            }
            while t < hits.len()
                invariant
                    t <= hits@.len(),
                    i < 4,
                    hl == line_hits(line_of(g0, dir, i as int)),
                    hits_view(hits@) == hl,
                    forall|u: int| 0 <= u < hl.len()
                        ==> 0 <= (#[trigger] hl[u]).0 < 4,
                    events@ == slide_events_upto(g0, dir, i as int)
                        + line_events(g0, dir, i as int).take(t as int),
                decreases hits@.len() - t,
            {
                let h = hits[t];
                proof {
                    assert(hits_view(hits@)[t as int] == (h.0 as int, h.1));
                    assert(hl[t as int].0 == h.0 as int);
                }
                let rc = Self::line_coords(dir, i, h.0);
                let ghost pre_events = events@;
                events.push(MergeEvent { row: rc.0, col: rc.1, value: h.1 });
                proof {
                    assert(line_events(g0, dir, i as int)[t as int]
                        == hit_event(dir, i as int, hl[t as int]));
                    assert(MergeEvent { row: rc.0, col: rc.1, value: h.1 }
                        == hit_event(dir, i as int, hl[t as int]));
                    assert(line_events(g0, dir, i as int).take(t as int + 1)
                        =~= line_events(g0, dir, i as int).take(t as int)
                            .push(line_events(g0, dir, i as int)[t as int]));
                    assert(events@ =~= slide_events_upto(g0, dir, i as int)
                        + line_events(g0, dir, i as int).take(t as int + 1));
                }
                t = t + 1;
            }
            proof {
                assert(line_events(g0, dir, i as int).take(hl.len() as int)
                    =~= line_events(g0, dir, i as int));
                assert(slide_events_upto(g0, dir, i as int + 1)
                    == slide_events_upto(g0, dir, i as int) + line_events(g0, dir, i as int));
                assert(events@ =~= slide_events_upto(g0, dir, i as int + 1));
            }
            i = i + 1;
        }
        proof {
            lemma_coords(dir);
            assert forall|r: int| 0 <= r < 4 implies self@[r] =~= slid_grid(g0, dir)[r] by {
                assert forall|c: int| 0 <= c < 4 implies
                    self@[r][c] == slid_grid(g0, dir)[r][c] by {
                    let j = line_no(dir, r, c);
                    let k = line_pos(dir, r, c);
                    assert(line_of(self@, dir, j)[k] == self@[r][c]);
                    assert(slid_grid(g0, dir)[r][c] == slid_line(line_of(g0, dir, j))[k]);
                }
            }
            assert(self@ =~~= slid_grid(g0, dir));
            lemma_slid_grid_fixed(g0, dir);
            // conservation and well-formedness of the slid board
            lemma_slide_total_bounds(g0, dir);
            lemma_slide_total_bounds(self@, dir);
            assert forall|j: int| 0 <= j < 4 implies
                seq_sum(#[trigger] line_of(self@, dir, j)) == seq_sum(line_of(g0, dir, j)) by {
                lemma_line_of_slid(g0, dir, j);
                lemma_slid_line_sum(line_of(g0, dir, j));
            }
            assert(grid_sum(self@) == grid_sum(g0));
            assert forall|r: int, c: int| 0 <= r < 4 && 0 <= c < 4 implies
                is_tile(#[trigger] self@[r][c]) by {
                let j = line_no(dir, r, c);
                let k = line_pos(dir, r, c);
                assert(forall|k2: int| 0 <= k2 < 4
                    ==> is_tile(#[trigger] line_of(g0, dir, j)[k2]));
                lemma_slid_line_tiles(line_of(g0, dir, j));
                assert(self@[r][c] == slid_line(line_of(g0, dir, j))[k]);
            }
        }
        SlideOutcome { moved, delta, events }
    }
}

} // verus!
