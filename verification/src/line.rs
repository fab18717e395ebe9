//! Sliding and merging of a single line of tiles.
//!
//! A slide acts on each row or column of the board independently.  A line is
//! read with the cell nearest the slide's target edge first, so sliding is
//! always "toward index 0" here.  The result is: occupied cells keep their
//! order and close ranks toward the edge, each pair of equal neighbours
//! nearest the edge merges into one doubled tile, and a doubled tile never
//! merges again within the same slide.

use vstd::prelude::*;

verus! {

/// Largest total tile value a board may carry.  Real play stays far below
/// this; the bound keeps every doubled tile and every score delta well inside
/// `u32`.
pub const SUM_LIMIT: u32 = 0x4000_0000;

/// The occupied values of a line, in order, with empty cells dropped.
pub open spec fn occ(line: Seq<u32>) -> Seq<u32>
    decreases line.len(),
{
    if line.len() == 0 {
        Seq::empty()
    } else if line[0] != 0 {
        seq![line[0]] + occ(line.skip(1))
    } else {
        occ(line.skip(1))
    }
}

/// Greedy pairwise merge of a compacted line, nearest the target edge first:
/// two equal neighbours become one doubled tile, and a doubled tile takes no
/// further part in the pass.
pub open spec fn merged_values(s: Seq<u32>) -> Seq<u32>
    decreases s.len(),
{
    if s.len() >= 2 && s[0] == s[1] {
        seq![(2 * s[0]) as u32] + merged_values(s.skip(2))
    } else if s.len() >= 1 {
        seq![s[0]] + merged_values(s.skip(1))
    } else {
        Seq::empty()
    }
}

/// Total score contributed by the merges of one compacted line: the sum of
/// the doubled values.
pub open spec fn merged_score(s: Seq<u32>) -> int
    decreases s.len(),
{
    if s.len() >= 2 && s[0] == s[1] {
        2 * s[0] + merged_score(s.skip(2))
    } else if s.len() >= 1 {
        merged_score(s.skip(1))
    } else {
        0
    }
}

/// The merges of one compacted line: the position of each doubled tile within
/// the slid line (counted from the target edge, starting at `off`), with its
/// doubled value.
pub open spec fn merged_hits(s: Seq<u32>, off: int) -> Seq<(int, u32)>
    decreases s.len(),
{
    if s.len() >= 2 && s[0] == s[1] {
        seq![(off, (2 * s[0]) as u32)] + merged_hits(s.skip(2), off + 1)
    } else if s.len() >= 1 {
        merged_hits(s.skip(1), off + 1)
    } else {
        Seq::empty()
    }
}

/// `n` empty cells.
pub open spec fn zeros(n: int) -> Seq<u32> {
    Seq::new(n as nat, |i: int| 0u32)
}

/// What a line holds after sliding toward index 0: compacted, merged, and
/// padded back to its length with empty cells.
pub open spec fn slid_line(line: Seq<u32>) -> Seq<u32> {
    merged_values(occ(line)) + zeros(line.len() - merged_values(occ(line)).len())
}

/// Score delta of sliding one line.
pub open spec fn line_score(line: Seq<u32>) -> int {
    merged_score(occ(line))
}

/// Merge positions and values of sliding one line.
pub open spec fn line_hits(line: Seq<u32>) -> Seq<(int, u32)> {
    merged_hits(occ(line), 0)
}

/// Sum of all tile values of a line.
pub open spec fn seq_sum(s: Seq<u32>) -> int
    decreases s.len(),
{
    if s.len() == 0 {
        0
    } else {
        s[0] + seq_sum(s.skip(1))
    }
}

/// The sum of the values of a sequence of merges.
pub open spec fn hits_value_sum(h: Seq<(int, u32)>) -> int
    decreases h.len(),
{
    if h.len() == 0 {
        0
    } else {
        h[0].1 + hits_value_sum(h.skip(1))
    }
}

/// `2^k`.
pub open spec fn pow2(k: nat) -> int
    decreases k,
{
    if k == 0 {
        1
    } else {
        2 * pow2((k - 1) as nat)
    }
}

/// A legal cell value: empty, or a power of two of at least 2.
pub open spec fn is_tile(v: u32) -> bool {
    v == 0 || exists|k: nat| k >= 1 && v == pow2(k)
}

/// A one-cell line sums to its cell.
pub proof fn lemma_seq_sum_singleton(v: u32)
    ensures
        seq_sum(seq![v]) == v,
{
    assert(seq![v].len() == 1);
    assert(seq![v][0] == v);
    assert(seq![v].skip(1) =~= Seq::<u32>::empty());
    assert(seq_sum(seq![v].skip(1)) == 0);
}

/// Unfolding a sum by its first cell.
pub proof fn lemma_seq_sum_unfold(s: Seq<u32>)
    requires
        s.len() >= 1,
    ensures
        seq_sum(s) == s[0] + seq_sum(s.skip(1)),
{
}

/// Unfolding a sum by its first two cells.
pub proof fn lemma_seq_sum_unfold2(s: Seq<u32>)
    requires
        s.len() >= 2,
    ensures
        seq_sum(s) == s[0] + s[1] + seq_sum(s.skip(2)),
{
    assert(s.skip(1)[0] == s[1]);
    assert(s.skip(1).skip(1) =~= s.skip(2));
    assert(seq_sum(s.skip(1)) == s.skip(1)[0] + seq_sum(s.skip(1).skip(1)));
    assert(seq_sum(s) == s[0] + seq_sum(s.skip(1)));
}

/// A four-cell line sums to its four cells.
pub proof fn lemma_seq_sum_len4(s: Seq<u32>)
    requires
        s.len() == 4,
    ensures
        seq_sum(s) == s[0] + s[1] + s[2] + s[3],
{
    lemma_seq_sum_unfold2(s);
    lemma_seq_sum_unfold2(s.skip(2));
    assert(s.skip(2)[0] == s[2]);
    assert(s.skip(2)[1] == s[3]);
    assert(s.skip(2).skip(2) =~= Seq::<u32>::empty());
    assert(seq_sum(Seq::<u32>::empty()) == 0);
}

/// A four-cell line has one compacted cell per occupied cell.
pub proof fn lemma_occ_len4(s: Seq<u32>)
    requires
        s.len() == 4,
    ensures
        occ(s).len() == (if s[0] != 0 { 1int } else { 0 }) + (if s[1] != 0 { 1int } else { 0 })
            + (if s[2] != 0 { 1int } else { 0 }) + (if s[3] != 0 { 1int } else { 0 }),
{
    assert(s.skip(1)[0] == s[1]);
    assert(s.skip(1).skip(1) =~= s.skip(2));
    assert(s.skip(2)[0] == s[2]);
    assert(s.skip(2).skip(1) =~= s.skip(3));
    assert(s.skip(3)[0] == s[3]);
    assert(s.skip(3).skip(1) =~= s.skip(4));
    assert(s.skip(4) =~= Seq::<u32>::empty());
    assert(occ(Seq::<u32>::empty()).len() == 0);
    assert(occ(s.skip(3)).len() == (if s[3] != 0 { 1int } else { 0 }));
    assert(occ(s.skip(2)).len() == (if s[2] != 0 { 1int } else { 0 }) + occ(s.skip(3)).len());
    assert(occ(s.skip(1)).len() == (if s[1] != 0 { 1int } else { 0 }) + occ(s.skip(2)).len());
    assert(occ(s).len() == (if s[0] != 0 { 1int } else { 0 }) + occ(s.skip(1)).len());
}

/// Sums are additive over concatenation.
pub proof fn lemma_seq_sum_add(a: Seq<u32>, b: Seq<u32>)
    ensures
        seq_sum(a + b) == seq_sum(a) + seq_sum(b),
    decreases a.len(),
{
    if a.len() == 0 {
        assert(a + b =~= b);
    } else {
        assert((a + b).skip(1) =~= a.skip(1) + b);
        lemma_seq_sum_add(a.skip(1), b);
    }
}

/// A sum of tile values is never negative.
pub proof fn lemma_seq_sum_nonneg(s: Seq<u32>)
    ensures
        seq_sum(s) >= 0,
    decreases s.len(),
{
    if s.len() > 0 {
        lemma_seq_sum_nonneg(s.skip(1));
    }
}

/// Dropping a prefix cannot increase the sum.
pub proof fn lemma_seq_sum_skip(s: Seq<u32>, i: int)
    requires
        0 <= i <= s.len(),
    ensures
        0 <= seq_sum(s.skip(i)) <= seq_sum(s),
    decreases i,
{
    lemma_seq_sum_nonneg(s.skip(i));
    if i == 0 {
        assert(s.skip(0) =~= s);
    } else {
        lemma_seq_sum_skip(s, i - 1);
        lemma_seq_sum_unfold(s.skip(i - 1));
        assert(s.skip(i - 1)[0] == s[i - 1]);
        assert(s.skip(i - 1).skip(1) =~= s.skip(i));
    }
}

/// Compaction drops only empty cells, so it preserves the sum.
pub proof fn lemma_occ_sum(line: Seq<u32>)
    ensures
        seq_sum(occ(line)) == seq_sum(line),
    decreases line.len(),
{
    if line.len() > 0 {
        lemma_occ_sum(line.skip(1));
        lemma_seq_sum_unfold(line);
        if line[0] != 0 {
            lemma_seq_sum_singleton(line[0]);
            lemma_seq_sum_add(seq![line[0]], occ(line.skip(1)));
        }
    }
}

/// Compaction cannot lengthen a line.
pub proof fn lemma_occ_len(line: Seq<u32>)
    ensures
        occ(line).len() <= line.len(),
    decreases line.len(),
{
    if line.len() > 0 {
        lemma_occ_len(line.skip(1));
    }
}

/// Every compacted cell is occupied.
pub proof fn lemma_occ_nonzero(line: Seq<u32>)
    ensures
        forall|i: int| 0 <= i < occ(line).len() ==> occ(line)[i] != 0,
    decreases line.len(),
{
    if line.len() > 0 {
        lemma_occ_nonzero(line.skip(1));
        assert forall|i: int| 0 <= i < occ(line).len() implies occ(line)[i] != 0 by {
            if line[0] != 0 {
                assert(occ(line) == seq![line[0]] + occ(line.skip(1)));
                if i == 0 {
                    assert((seq![line[0]] + occ(line.skip(1)))[0] == line[0]);
                } else {
                    assert((seq![line[0]] + occ(line.skip(1)))[i] == occ(line.skip(1))[i - 1]);
                }
            } else {
                assert(occ(line)[i] == occ(line.skip(1))[i]);
            }
        }
    }
}

/// Every compacted cell carries a legal tile value if the line does.
pub proof fn lemma_occ_tiles(line: Seq<u32>)
    requires
        forall|i: int| 0 <= i < line.len() ==> is_tile(#[trigger] line[i]),
    ensures
        forall|i: int| 0 <= i < occ(line).len() ==> is_tile(#[trigger] occ(line)[i]),
    decreases line.len(),
{
    if line.len() > 0 {
        assert(forall|i: int| 0 <= i < line.skip(1).len() ==> is_tile(#[trigger] line.skip(1)[i]));
        lemma_occ_tiles(line.skip(1));
        assert forall|i: int| 0 <= i < occ(line).len() implies is_tile(occ(line)[i]) by {
            if line[0] != 0 {
                assert(occ(line) == seq![line[0]] + occ(line.skip(1)));
                if i == 0 {
                    assert((seq![line[0]] + occ(line.skip(1)))[0] == line[0]);
                } else {
                    assert((seq![line[0]] + occ(line.skip(1)))[i] == occ(line.skip(1))[i - 1]);
                }
            } else {
                assert(occ(line)[i] == occ(line.skip(1))[i]);
            }
        }
    }
}

/// Merging cannot lengthen a line.
pub proof fn lemma_merged_len(s: Seq<u32>)
    ensures
        merged_values(s).len() <= s.len(),
    decreases s.len(),
{
    if s.len() >= 2 && s[0] == s[1] {
        lemma_merged_len(s.skip(2));
    } else if s.len() >= 1 {
        lemma_merged_len(s.skip(1));
    }
}

/// Merging preserves the total tile value, as long as the doubled values do
/// not overflow their cells.
pub proof fn lemma_merged_sum(s: Seq<u32>)
    requires
        seq_sum(s) <= u32::MAX,
    ensures
        seq_sum(merged_values(s)) == seq_sum(s),
    decreases s.len(),
{
    lemma_seq_sum_nonneg(s);
    if s.len() >= 2 && s[0] == s[1] {
        lemma_seq_sum_unfold2(s);
        lemma_seq_sum_nonneg(s.skip(2));
        lemma_merged_sum(s.skip(2));
        let head = (2 * s[0]) as u32;
        lemma_seq_sum_singleton(head);
        lemma_seq_sum_add(seq![head], merged_values(s.skip(2)));
    } else if s.len() >= 1 {
        lemma_seq_sum_unfold(s);
        lemma_seq_sum_nonneg(s.skip(1));
        lemma_merged_sum(s.skip(1));
        lemma_seq_sum_singleton(s[0]);
        lemma_seq_sum_add(seq![s[0]], merged_values(s.skip(1)));
    }
}

/// A slide's score is never negative and never exceeds the line's total value.
pub proof fn lemma_merged_score_bounds(s: Seq<u32>)
    ensures
        0 <= merged_score(s) <= seq_sum(s),
    decreases s.len(),
{
    lemma_seq_sum_nonneg(s);
    if s.len() >= 2 && s[0] == s[1] {
        lemma_seq_sum_unfold2(s);
        lemma_merged_score_bounds(s.skip(2));
    } else if s.len() >= 1 {
        lemma_seq_sum_unfold(s);
        lemma_merged_score_bounds(s.skip(1));
    }
}

/// The score of a slide is exactly the sum of the values of its merges.
pub proof fn lemma_score_is_hit_sum(s: Seq<u32>, off: int)
    requires
        seq_sum(s) <= u32::MAX,
    ensures
        hits_value_sum(merged_hits(s, off)) == merged_score(s),
    decreases s.len(),
{
    lemma_seq_sum_nonneg(s);
    if s.len() >= 2 && s[0] == s[1] {
        lemma_seq_sum_unfold2(s);
        lemma_seq_sum_nonneg(s.skip(2));
        lemma_score_is_hit_sum(s.skip(2), off + 1);
        let h = merged_hits(s, off);
        assert(h.skip(1) =~= merged_hits(s.skip(2), off + 1));
        assert(hits_value_sum(h) == h[0].1 + hits_value_sum(h.skip(1)));
    } else if s.len() >= 1 {
        lemma_seq_sum_unfold(s);
        lemma_seq_sum_nonneg(s.skip(1));
        lemma_score_is_hit_sum(s.skip(1), off + 1);
    }
}

/// No tile is the product of two merges in one slide: merge positions are
/// strictly increasing, so no slot is doubled twice; and every position lies
/// within the merged line.
pub proof fn lemma_hits_distinct(s: Seq<u32>, off: int)
    ensures
        forall|i: int| 0 <= i < merged_hits(s, off).len()
            ==> off <= (#[trigger] merged_hits(s, off)[i]).0 < off + merged_values(s).len(),
        forall|i: int, j: int| 0 <= i < j < merged_hits(s, off).len()
            ==> merged_hits(s, off)[i].0 < merged_hits(s, off)[j].0,
    decreases s.len(),
{
    if s.len() >= 2 && s[0] == s[1] {
        lemma_hits_distinct(s.skip(2), off + 1);
        assert(forall|i: int| 1 <= i < merged_hits(s, off).len()
            ==> merged_hits(s, off)[i] == merged_hits(s.skip(2), off + 1)[i - 1]);
    } else if s.len() >= 1 {
        lemma_hits_distinct(s.skip(1), off + 1);
        assert(forall|i: int| 0 <= i < merged_hits(s, off).len()
            ==> merged_hits(s, off)[i] == merged_hits(s.skip(1), off + 1)[i]);
    }
}

/// Every merged cell carries a legal tile value if the compacted line does.
pub proof fn lemma_merged_tiles(s: Seq<u32>)
    requires
        seq_sum(s) <= u32::MAX,
        forall|i: int| 0 <= i < s.len() ==> is_tile(#[trigger] s[i]),
    ensures
        forall|i: int| 0 <= i < merged_values(s).len()
            ==> is_tile(#[trigger] merged_values(s)[i]),
    decreases s.len(),
{
    lemma_seq_sum_nonneg(s);
    if s.len() >= 2 && s[0] == s[1] {
        lemma_seq_sum_unfold2(s);
        lemma_seq_sum_nonneg(s.skip(2));
        lemma_merged_tiles(s.skip(2));
        let v = s[0];
        assert(is_tile((2 * v) as u32)) by {
            if v != 0 {
                let k = choose|k: nat| k >= 1 && v == pow2(k);
                assert(pow2(k + 1) == 2 * pow2((k + 1 - 1) as nat));
                assert(2 * v == pow2(k + 1));
            }
        }
        assert(forall|i: int| 1 <= i < merged_values(s).len()
            ==> merged_values(s)[i] == merged_values(s.skip(2))[i - 1]);
    } else if s.len() >= 1 {
        lemma_seq_sum_unfold(s);
        lemma_seq_sum_nonneg(s.skip(1));
        lemma_merged_tiles(s.skip(1));
        assert(forall|i: int| 1 <= i < merged_values(s).len()
            ==> merged_values(s)[i] == merged_values(s.skip(1))[i - 1]);
    }
}

/// Sliding keeps the length of a line.
pub proof fn lemma_slid_line_len(line: Seq<u32>)
    ensures
        slid_line(line).len() == line.len(),
{
    lemma_occ_len(line);
    lemma_merged_len(occ(line));
}

/// Every cell of a slid line carries a legal tile value if the line does.
pub proof fn lemma_slid_line_tiles(line: Seq<u32>)
    requires
        seq_sum(line) <= u32::MAX,
        forall|i: int| 0 <= i < line.len() ==> is_tile(#[trigger] line[i]),
    ensures
        forall|i: int| 0 <= i < slid_line(line).len() ==> is_tile(#[trigger] slid_line(line)[i]),
{
    lemma_occ_tiles(line);
    lemma_occ_sum(line);
    lemma_merged_tiles(occ(line));
    let m = merged_values(occ(line));
    assert forall|i: int| 0 <= i < slid_line(line).len() implies is_tile(slid_line(line)[i]) by {
        if i < m.len() {
            assert(slid_line(line)[i] == m[i]);
        } else {
            assert(slid_line(line)[i] == zeros(line.len() - m.len())[i - m.len()]);
            assert(slid_line(line)[i] == 0);
        }
    }
}

/// Sliding a line preserves its total tile value.
pub proof fn lemma_slid_line_sum(line: Seq<u32>)
    requires
        seq_sum(line) <= u32::MAX,
    ensures
        seq_sum(slid_line(line)) == seq_sum(line),
{
    lemma_occ_sum(line);
    lemma_merged_sum(occ(line));
    lemma_occ_len(line);
    lemma_merged_len(occ(line));
    let m = merged_values(occ(line));
    let z = zeros(line.len() - m.len());
    lemma_seq_sum_add(m, z);
    assert(seq_sum(z) == 0) by {
        lemma_zeros_sum(z.len() as int);
    }
}

/// A run of empty cells sums to zero.
pub proof fn lemma_zeros_sum(n: int)
    requires
        n >= 0,
    ensures
        seq_sum(zeros(n)) == 0,
    decreases n,
{
    if n > 0 {
        assert(zeros(n).skip(1) =~= zeros(n - 1));
        lemma_zeros_sum(n - 1);
    }
}

/// Executable merge records seen as their mathematical counterparts.
pub open spec fn hits_view(h: Seq<(usize, u32)>) -> Seq<(int, u32)> {
    h.map_values(|e: (usize, u32)| (e.0 as int, e.1))
}

/// Slide one line toward index 0: occupied cells close ranks toward the edge,
/// each pair of equal neighbours nearest the edge merges once into a doubled
/// tile, and the line is padded back with empty cells.  Returns the slid
/// line, the score delta, and each merge's position (from the target edge)
/// with its doubled value.
pub fn slide_line(line: &Vec<u32>) -> (r: (Vec<u32>, u32, Vec<(usize, u32)>))
    requires
        seq_sum(line@) <= SUM_LIMIT,
    ensures
        r.0@ == slid_line(line@),
        r.0@.len() == line@.len(),
        r.1 == line_score(line@),
        hits_view(r.2@) == line_hits(line@),
{
    let n = line.len();
    let mut occv: Vec<u32> = Vec::new();
    let mut i: usize = 0;
    proof {
        assert(line@.skip(0) =~= line@);
        assert(Seq::<u32>::empty() + occ(line@) =~= occ(line@));
    }
    while i < n
        invariant
            i <= n,
            n == line@.len(),
            occ(line@) == occv@ + occ(line@.skip(i as int)),
            occv@.len() <= i,
        decreases n - i,
    {
        proof {
            assert(line@.skip(i as int)[0] == line@[i as int]);
            assert(line@.skip(i as int).skip(1) =~= line@.skip(i as int + 1));
        }
        let ghost pre = occv@;
        if line[i] != 0 {
            occv.push(line[i]);
            proof {
                assert(occ(line@.skip(i as int))
                    == seq![line@[i as int]] + occ(line@.skip(i as int + 1)));
                assert(pre.push(line@[i as int]) + occ(line@.skip(i as int + 1))
                    =~= pre + (seq![line@[i as int]] + occ(line@.skip(i as int + 1))));
            }
        } else {
            proof {
                assert(occ(line@.skip(i as int)) == occ(line@.skip(i as int + 1)));
            }
        }
        i = i + 1;
    }
    proof {
        assert(line@.skip(n as int) =~= Seq::<u32>::empty());
        assert(occ(Seq::<u32>::empty()) =~= Seq::<u32>::empty());
        assert(occv@ + Seq::<u32>::empty() =~= occv@);
        assert(occ(line@) == occv@);
        lemma_occ_sum(line@);
        lemma_occ_len(line@);
    }

    let m = occv.len();
    let mut out: Vec<u32> = Vec::new();
    let mut hits: Vec<(usize, u32)> = Vec::new();
    let mut delta: u32 = 0;
    let mut j: usize = 0;
    proof {
        assert(occv@.skip(0) =~= occv@);
        assert(Seq::<u32>::empty() + merged_values(occv@) =~= merged_values(occv@));
        assert(hits_view(Seq::<(usize, u32)>::empty()) =~= Seq::<(int, u32)>::empty());
        assert(Seq::<(int, u32)>::empty() + merged_hits(occv@, 0) =~= merged_hits(occv@, 0));
    }
    while j < m
        invariant
            j <= m,
            m == occv@.len(),
            occ(line@) == occv@,
            n == line@.len(),
            m <= n,
            seq_sum(occv@) <= SUM_LIMIT,
            merged_values(occv@) == out@ + merged_values(occv@.skip(j as int)),
            merged_score(occv@) == delta + merged_score(occv@.skip(j as int)),
            merged_hits(occv@, 0) == hits_view(hits@)
                + merged_hits(occv@.skip(j as int), out@.len() as int),
            out@.len() <= j,
        decreases m - j,
    {
        let ghost srem = occv@.skip(j as int);
        let ghost pre_out = out@;
        let ghost pre_hits = hits@;
        proof {
            assert(srem[0] == occv@[j as int]);
            if j + 1 < m {
                assert(srem[1] == occv@[j as int + 1]);
            }
            lemma_seq_sum_skip(occv@, j as int);
            lemma_merged_score_bounds(occv@);
            lemma_merged_score_bounds(srem);
        }
        if j + 1 < m && occv[j] == occv[j + 1] {
            proof {
                lemma_seq_sum_unfold2(srem);
                lemma_seq_sum_nonneg(srem.skip(2));
                lemma_merged_score_bounds(srem.skip(2));
                assert(merged_score(srem) == 2 * srem[0] + merged_score(srem.skip(2)));
            }
            let v = occv[j];
            let dv = 2 * v;
            out.push(dv);
            hits.push((out.len() - 1, dv));
            delta = delta + dv;
            proof {
                let ghost off = pre_out.len() as int;
                assert(srem.skip(2) =~= occv@.skip(j as int + 2));
                assert(merged_values(srem) == seq![dv] + merged_values(srem.skip(2)));
                assert(pre_out + (seq![dv] + merged_values(srem.skip(2)))
                    =~= pre_out.push(dv) + merged_values(srem.skip(2)));
                assert(merged_hits(srem, off) == seq![(off, dv)] + merged_hits(srem.skip(2), off + 1));
                assert(hits_view(pre_hits.push((pre_out.len() as usize, dv)))
                    =~= hits_view(pre_hits).push((off, dv)));
                assert(hits_view(pre_hits).push((off, dv)) + merged_hits(srem.skip(2), off + 1)
                    =~= hits_view(pre_hits) + (seq![(off, dv)] + merged_hits(srem.skip(2), off + 1)));
            }
            j = j + 2;
        } else {
            let v = occv[j];
            out.push(v);
            proof {
                let ghost off = pre_out.len() as int;
                assert(srem.skip(1) =~= occv@.skip(j as int + 1));
                assert(merged_values(srem) == seq![v] + merged_values(srem.skip(1)));
                assert(pre_out + (seq![v] + merged_values(srem.skip(1)))
                    =~= pre_out.push(v) + merged_values(srem.skip(1)));
                assert(merged_hits(srem, off) == merged_hits(srem.skip(1), off + 1));
            }
            j = j + 1;
        }
    }
    proof {
        assert(occv@.skip(m as int) =~= Seq::<u32>::empty());
        assert(merged_values(Seq::<u32>::empty()) =~= Seq::<u32>::empty());
        assert(out@ + Seq::<u32>::empty() =~= out@);
        assert(merged_values(occv@) == out@);
        assert(merged_score(Seq::<u32>::empty()) == 0);
        assert(merged_hits(Seq::<u32>::empty(), out@.len() as int) =~= Seq::<(int, u32)>::empty());
        assert(hits_view(hits@) + Seq::<(int, u32)>::empty() =~= hits_view(hits@));
        assert(hits_view(hits@) == merged_hits(occv@, 0));
        lemma_merged_len(occv@);
    }

    let ghost mlen = merged_values(occ(line@)).len() as int;
    proof {
        assert(out@ =~= out@ + zeros(0));
    }
    while out.len() < n
        invariant
            n == line@.len(),
            out@.len() <= n,
            mlen == merged_values(occ(line@)).len() as int,
            mlen <= out@.len(),
            out@ == merged_values(occ(line@)) + zeros(out@.len() - mlen),
        decreases n - out.len(),
    {
        let ghost k = out@.len() - mlen;
        out.push(0);
        proof {
            assert(zeros(k + 1) =~= zeros(k).push(0u32));
            assert(merged_values(occ(line@)) + zeros(k).push(0u32)
                =~= (merged_values(occ(line@)) + zeros(k)).push(0u32));
        }
    }
    proof {
        assert(out@.len() == n as int);
        assert(out@ == slid_line(line@));
    }
    (out, delta, hits)
}

} // verus!
