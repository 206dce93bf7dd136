use vstd::prelude::*;

use crate::helpers::random_below;
use crate::helpers::random_two_or_four;
use crate::MoveDir;

verus! {

/// `v` is a power of two (at least 1).
pub open spec fn is_power_of_two(v: int) -> bool
    decreases v,
{
    if v < 2 {
        v == 1
    } else {
        v % 2 == 0 && is_power_of_two(v / 2)
    }
}

/// A cell value: 0 for empty, or a power of two at least 2.
pub open spec fn tile_ok(v: u32) -> bool {
    v == 0 || (v >= 2 && is_power_of_two(v as int))
}

/// The nonzero entries of a line, in order.
pub open spec fn nonzeros(s: Seq<u32>) -> Seq<u32>
    decreases s.len(),
{
    if s.len() == 0 {
        Seq::empty()
    } else if s.last() != 0 {
        nonzeros(s.drop_last()).push(s.last())
    } else {
        nonzeros(s.drop_last())
    }
}

/// Number of empty cells in a line or a grid.
pub open spec fn count_empty(s: Seq<u32>) -> int {
    s.len() - nonzeros(s).len()
}

/// One merge pass over a compacted line: adjacent equal tiles collide once,
/// scanned left to right, and a freshly merged tile takes no further part.
pub open spec fn merge_line(s: Seq<u32>) -> Seq<u32>
    decreases s.len(),
{
    if s.len() >= 2 && s[0] == s[1] {
        seq![(s[0] + s[1]) as u32] + merge_line(s.skip(2))
    } else if s.len() >= 1 {
        seq![s[0]] + merge_line(s.skip(1))
    } else {
        Seq::empty()
    }
}

/// Score gained by the merge pass: the sum of the merged tiles' new values.
pub open spec fn merge_score(s: Seq<u32>) -> int
    decreases s.len(),
{
    if s.len() >= 2 && s[0] == s[1] {
        s[0] + s[1] + merge_score(s.skip(2))
    } else if s.len() >= 1 {
        merge_score(s.skip(1))
    } else {
        0
    }
}

/// Number of collisions in the merge pass.
pub open spec fn merge_count(s: Seq<u32>) -> int
    decreases s.len(),
{
    if s.len() >= 2 && s[0] == s[1] {
        1 + merge_count(s.skip(2))
    } else if s.len() >= 1 {
        merge_count(s.skip(1))
    } else {
        0
    }
}

/// The whole line transform: compact the nonzero tiles toward the wall,
/// merge once, pad with empties to the line's length.
pub open spec fn slid_line(s: Seq<u32>) -> Seq<u32> {
    let m = merge_line(nonzeros(s));
    Seq::new(s.len(), |j: int| if j < m.len() { m[j] } else { 0u32 })
}

/// The nonzero entries are tiles of the line, with its bounds.
pub proof fn lemma_nonzeros_props(s: Seq<u32>, b: u32)
    requires
        forall|k: int| 0 <= k < s.len() ==> tile_ok(#[trigger] s[k]) && s[k] <= b,
    ensures
        nonzeros(s).len() <= s.len(),
        forall|j: int|
            0 <= j < nonzeros(s).len() ==> {
                &&& #[trigger] nonzeros(s)[j] != 0
                &&& tile_ok(nonzeros(s)[j])
                &&& nonzeros(s)[j] <= b
            },
    decreases s.len(),
{
    if s.len() > 0 {
        assert(forall|k: int|
            0 <= k < s.drop_last().len() ==> tile_ok(#[trigger] s.drop_last()[k])
                && s.drop_last()[k] <= b);
        lemma_nonzeros_props(s.drop_last(), b);
        assert(s.last() == s[s.len() - 1]);
    }
}

/// What the merge pass yields from a line of nonzero bounded tiles: as many
/// tiles as collisions removed, all nonzero, none more than doubled, and a
/// bounded nonnegative score.
pub proof fn lemma_merge_props(s: Seq<u32>, b: u32)
    requires
        b <= 0x4000_0000,
        forall|k: int|
            0 <= k < s.len() ==> #[trigger] s[k] != 0 && tile_ok(s[k]) && s[k] <= b,
    ensures
        merge_line(s).len() + merge_count(s) == s.len(),
        0 <= merge_count(s),
        merge_count(s) * 2 <= s.len(),
        0 <= merge_score(s),
        merge_score(s) <= b * s.len(),
        forall|j: int|
            0 <= j < merge_line(s).len() ==> {
                &&& #[trigger] merge_line(s)[j] != 0
                &&& tile_ok(merge_line(s)[j])
                &&& merge_line(s)[j] <= 2 * b
            },
    decreases s.len(),
{
    if s.len() >= 2 && s[0] == s[1] {
        let rest = s.skip(2);
        assert(forall|k: int|
            0 <= k < rest.len() ==> #[trigger] rest[k] != 0 && tile_ok(rest[k]) && rest[k]
                <= b) by {
            assert(forall|k: int| 0 <= k < rest.len() ==> rest[k] == #[trigger] s[k + 2]);
        }
        lemma_merge_props(rest, b);
        let v = s[0] as int;
        assert(is_power_of_two(2 * v)) by {
            assert((2 * v) % 2 == 0);
            assert((2 * v) / 2 == v);
        }
        assert(merge_line(s) == seq![(s[0] + s[1]) as u32] + merge_line(rest));
        assert(merge_line(s)[0] == (s[0] + s[1]) as u32);
        assert(forall|j: int|
            1 <= j < merge_line(s).len() ==> #[trigger] merge_line(s)[j] == merge_line(
                rest,
            )[j - 1]);
        assert(merge_score(s) == 2 * v + merge_score(rest));
        assert(merge_score(rest) <= b * rest.len());
        assert(b * s.len() == b * rest.len() + 2 * b) by {
            assert(s.len() == rest.len() + 2);
            assert(b * (rest.len() + 2) == b * rest.len() + b * 2)
                by (nonlinear_arith);
        }
    } else if s.len() >= 1 {
        let rest = s.skip(1);
        assert(forall|k: int|
            0 <= k < rest.len() ==> #[trigger] rest[k] != 0 && tile_ok(rest[k]) && rest[k]
                <= b) by {
            assert(forall|k: int| 0 <= k < rest.len() ==> rest[k] == #[trigger] s[k + 1]);
        }
        lemma_merge_props(rest, b);
        assert(merge_line(s) == seq![s[0]] + merge_line(rest));
        assert(merge_line(s)[0] == s[0]);
        assert(forall|j: int|
            1 <= j < merge_line(s).len() ==> #[trigger] merge_line(s)[j] == merge_line(
                rest,
            )[j - 1]);
        assert(merge_score(rest) <= b * rest.len());
        assert(b * s.len() == b * rest.len() + b) by {
            assert(s.len() == rest.len() + 1);
            assert(b * (rest.len() + 1) == b * rest.len() + b) by (nonlinear_arith);
        }
    }
}

/// Appending empties does not change the nonzero entries.
proof fn lemma_nonzeros_pad(m: Seq<u32>, p: nat)
    ensures
        nonzeros(m + Seq::new(p, |j: int| 0u32)) == nonzeros(m),
    decreases p,
{
    if p == 0 {
        assert(m + Seq::new(0, |j: int| 0u32) =~= m);
    } else {
        lemma_nonzeros_pad(m, (p - 1) as nat);
        let padded = m + Seq::new(p, |j: int| 0u32);
        let shorter = m + Seq::new((p - 1) as nat, |j: int| 0u32);
        assert(padded.last() == 0);
        assert(padded.drop_last() =~= shorter);
    }
}

/// A line of nonzero entries is its own nonzero subsequence.
proof fn lemma_nonzeros_of_nonzero(m: Seq<u32>)
    requires
        forall|j: int| 0 <= j < m.len() ==> #[trigger] m[j] != 0,
    ensures
        nonzeros(m) == m,
    decreases m.len(),
{
    if m.len() > 0 {
        assert(forall|j: int|
            0 <= j < m.drop_last().len() ==> #[trigger] m.drop_last()[j] != 0);
        lemma_nonzeros_of_nonzero(m.drop_last());
        assert(m.drop_last().push(m.last()) =~= m);
    }
}

/// What one line transform does to a line of valid bounded tiles: the result
/// keeps the length, stays valid, at most doubles a tile, and holds exactly
/// one nonzero tile fewer per collision.
pub proof fn lemma_slid_line_props(s: Seq<u32>, b: u32)
    requires
        2 <= b <= 0x4000_0000,
        forall|k: int| 0 <= k < s.len() ==> tile_ok(#[trigger] s[k]) && s[k] <= b,
    ensures
        slid_line(s).len() == s.len(),
        forall|j: int|
            0 <= j < s.len() ==> tile_ok(#[trigger] slid_line(s)[j]) && slid_line(s)[j]
                <= 2 * b,
        nonzeros(slid_line(s)) == merge_line(nonzeros(s)),
        nonzeros(slid_line(s)).len() == nonzeros(s).len() - merge_count(nonzeros(s)),
        0 <= merge_score(nonzeros(s)) <= b * s.len(),
{
    lemma_nonzeros_props(s, b);
    let c = nonzeros(s);
    lemma_merge_props(c, b);
    let m = merge_line(c);
    assert(merge_score(c) <= b * c.len());
    assert(b * c.len() <= b * s.len()) by (nonlinear_arith)
        requires c.len() <= s.len(), b >= 2;
    let p = (s.len() - m.len()) as nat;
    assert(slid_line(s) =~= m + Seq::new(p, |j: int| 0u32));
    lemma_nonzeros_pad(m, p);
    lemma_nonzeros_of_nonzero(m);
}

/// Compacts, merges and pads one line, returning the new line and the score
/// gained by the merges.
pub fn slide_line(line: &Vec<u32>) -> (res: (Vec<u32>, u64))
    requires
        line@.len() <= 8,
        forall|k: int|
            0 <= k < line@.len() ==> tile_ok(#[trigger] line@[k]) && line@[k]
                <= 0x4000_0000,
    ensures
        res.0@ == slid_line(line@),
        res.1 == merge_score(nonzeros(line@)),
        res.1 <= 0x8_0000_0000,
{
    let n = line.len();
    proof {
        lemma_nonzeros_props(line@, 0x4000_0000);
    }
    // compact
    let mut c: Vec<u32> = Vec::new();
    let mut idx: usize = 0;
    while idx < n
        invariant
            0 <= idx <= n,
            n == line@.len(),
            forall|k: int|
                0 <= k < line@.len() ==> tile_ok(#[trigger] line@[k]) && line@[k]
                    <= 0x4000_0000,
            c@ == nonzeros(line@.take(idx as int)),
        decreases n - idx,
    {
        proof {
            let pre = line@.take(idx as int);
            let cur = line@.take(idx as int + 1);
            assert(cur.drop_last() =~= pre);
            assert(cur.last() == line@[idx as int]);
        }
        if line[idx] != 0 {
            c.push(line[idx]);
        }
        idx = idx + 1;
    }
    proof {
        assert(line@.take(n as int) =~= line@);
        lemma_merge_props(nonzeros(line@), 0x4000_0000);
        assert(c@.skip(0) =~= c@);
    }
    // merge
    let mut out: Vec<u32> = Vec::new();
    let mut gained: u64 = 0;
    let mut i: usize = 0;
    while i < c.len()
        invariant
            0 <= i <= c.len(),
            c@ == nonzeros(line@),
            c@.len() <= 8,
            forall|k: int|
                0 <= k < c@.len() ==> #[trigger] c@[k] != 0 && tile_ok(c@[k]) && c@[k]
                    <= 0x4000_0000,
            out@ + merge_line(c@.skip(i as int)) == merge_line(c@),
            gained + merge_score(c@.skip(i as int)) == merge_score(c@),
            gained <= 0x8000_0000u64 * i as u64,
        decreases c.len() - i,
    {
        let rest_len = c.len() - i;
        if rest_len >= 2 && c[i] == c[i + 1] {
            proof {
                let rest = c@.skip(i as int);
                assert(rest.len() >= 2);
                assert(rest[0] == c@[i as int]);
                assert(rest[1] == c@[i as int + 1]);
                assert(rest.skip(2) =~= c@.skip(i as int + 2));
                assert(merge_line(rest) == seq![(rest[0] + rest[1]) as u32] + merge_line(
                    rest.skip(2),
                ));
                assert(merge_score(rest) == rest[0] + rest[1] + merge_score(rest.skip(2)));
            }
            let merged: u32 = c[i] + c[i + 1];
            out.push(merged);
            proof {
                assert(out@ =~= (out@.drop_last() + seq![merged]));
            }
            gained = gained + merged as u64;
            i = i + 2;
            proof {
                assert(out@ + merge_line(c@.skip(i as int)) =~= merge_line(c@));
            }
        } else {
            proof {
                let rest = c@.skip(i as int);
                assert(rest.len() >= 1);
                assert(rest[0] == c@[i as int]);
                if rest.len() >= 2 {
                    assert(rest[1] == c@[i as int + 1]);
                }
                assert(rest.skip(1) =~= c@.skip(i as int + 1));
                assert(merge_line(rest) == seq![rest[0]] + merge_line(rest.skip(1)));
                assert(merge_score(rest) == merge_score(rest.skip(1)));
            }
            let kept: u32 = c[i];
            out.push(kept);
            proof {
                assert(out@ =~= (out@.drop_last() + seq![kept]));
            }
            i = i + 1;
            proof {
                assert(out@ + merge_line(c@.skip(i as int)) =~= merge_line(c@));
            }
        }
    }
    proof {
        assert(c@.skip(c@.len() as int) =~= Seq::<u32>::empty());
        assert(out@ =~= merge_line(c@));
        assert(gained == merge_score(nonzeros(line@)));
    }
    // pad
    let ghost m = merge_line(nonzeros(line@));
    while out.len() < n
        invariant
            m.len() <= out@.len() <= n,
            out@.take(m.len() as int) == m,
            forall|j: int| m.len() <= j < out@.len() ==> out@[j] == 0,
        decreases n - out.len(),
    {
        proof {
            let pre = out@;
            assert(pre.push(0u32).take(m.len() as int) =~= pre.take(m.len() as int));
        }
        out.push(0);
    }
    proof {
        assert(out@ =~= slid_line(line@)) by {
            assert(out@.len() == line@.len());
            assert(forall|j: int|
                0 <= j < m.len() ==> out@[j] == out@.take(m.len() as int)[j]);
        }
    }
    (out, gained)
}

/// Flat index of position `j` of line `i` when moving in direction `d` on an
/// `n` x `n` grid stored row-major. Lines are rows for horizontal moves and
/// columns for vertical ones; positions run in the direction the tiles
/// travel, wall first.
pub open spec fn flat_idx(d: MoveDir, n: int, i: int, j: int) -> int {
    match d {
        MoveDir::Left => i * n + j,
        MoveDir::Right => i * n + (n - 1 - j),
        MoveDir::Up => j * n + i,
        MoveDir::Down => (n - 1 - j) * n + i,
    }
}

/// The line that grid cell `t` belongs to for direction `d`.
pub open spec fn line_of(d: MoveDir, n: int, t: int) -> int {
    match d {
        MoveDir::Left => t / n,
        MoveDir::Right => t / n,
        MoveDir::Up => t % n,
        MoveDir::Down => t % n,
    }
}

/// The position of grid cell `t` within its line for direction `d`.
pub open spec fn pos_of(d: MoveDir, n: int, t: int) -> int {
    match d {
        MoveDir::Left => t % n,
        MoveDir::Right => n - 1 - t % n,
        MoveDir::Up => t / n,
        MoveDir::Down => n - 1 - t / n,
    }
}

/// Line `i` of the grid in the traversal order of direction `d`.
pub open spec fn line_seq(g: Seq<u32>, n: int, d: MoveDir, i: int) -> Seq<u32> {
    Seq::new(n as nat, |j: int| g[flat_idx(d, n, i, j)])
}

/// The grid after the slide and merge of a move in direction `d`, before any
/// tile is spawned.
pub open spec fn moved_grid(g: Seq<u32>, n: int, d: MoveDir) -> Seq<u32> {
    Seq::new(
        (n * n) as nat,
        |t: int| slid_line(line_seq(g, n, d, line_of(d, n, t)))[pos_of(d, n, t)],
    )
}

/// Merge score of the first `k` lines of a move in direction `d`.
pub open spec fn lines_gain(g: Seq<u32>, n: int, d: MoveDir, k: int) -> int
    decreases k,
{
    if k <= 0 {
        0
    } else {
        lines_gain(g, n, d, k - 1) + merge_score(nonzeros(line_seq(g, n, d, k - 1)))
    }
}

/// The total score a move in direction `d` gains.
pub open spec fn move_gain(g: Seq<u32>, n: int, d: MoveDir) -> int {
    lines_gain(g, n, d, n)
}

/// A move is effective when it changes at least one cell.
pub open spec fn move_effective(g: Seq<u32>, n: int, d: MoveDir) -> bool {
    moved_grid(g, n, d) != g
}

proof fn lemma_rowmajor(n: int, i: int, j: int)
    requires
        1 <= n,
        0 <= i < n,
        0 <= j < n,
    ensures
        (i * n + j) / n == i,
        (i * n + j) % n == j,
        0 <= i * n + j < n * n,
{
    vstd::arithmetic::div_mod::lemma_fundamental_div_mod_converse(i * n + j, n, i, j);
    assert(0 <= i * n + j < n * n) by (nonlinear_arith)
        requires 0 <= i < n, 0 <= j < n;
}

/// `line_of` and `pos_of` invert `flat_idx`.
proof fn lemma_idx_b(d: MoveDir, n: int, i: int, j: int)
    requires
        1 <= n,
        0 <= i < n,
        0 <= j < n,
    ensures
        0 <= flat_idx(d, n, i, j) < n * n,
        line_of(d, n, flat_idx(d, n, i, j)) == i,
        pos_of(d, n, flat_idx(d, n, i, j)) == j,
{
    match d {
        MoveDir::Left => lemma_rowmajor(n, i, j),
        MoveDir::Right => lemma_rowmajor(n, i, n - 1 - j),
        MoveDir::Up => lemma_rowmajor(n, j, i),
        MoveDir::Down => lemma_rowmajor(n, n - 1 - j, i),
    }
}

/// `flat_idx` inverts `line_of` and `pos_of`.
proof fn lemma_idx_a(d: MoveDir, n: int, t: int)
    requires
        1 <= n,
        0 <= t < n * n,
    ensures
        0 <= line_of(d, n, t) < n,
        0 <= pos_of(d, n, t) < n,
        flat_idx(d, n, line_of(d, n, t), pos_of(d, n, t)) == t,
{
    let q = t / n;
    let r = t % n;
    vstd::arithmetic::div_mod::lemma_fundamental_div_mod(t, n);
    vstd::arithmetic::div_mod::lemma_mod_bound(t, n);
    assert(t == n * q + r);
    assert(n * q == q * n) by (nonlinear_arith);
    if q < 0 {
        assert(n * q <= -n) by (nonlinear_arith)
            requires 1 <= n, q <= -1;
        assert(false);
    }
    if q >= n {
        vstd::arithmetic::mul::lemma_mul_inequality(n, q, n);
        assert(n * n <= q * n);
        assert(false);
    }
}

/// What one move does to a whole grid of valid bounded tiles: the grid keeps
/// its size, every cell stays a valid tile, no tile more than doubles, and
/// the gained score is nonnegative and bounded.
pub proof fn lemma_moved_grid_props(g: Seq<u32>, n: int, d: MoveDir)
    requires
        1 <= n <= 8,
        g.len() == n * n,
        forall|t: int| 0 <= t < g.len() ==> tile_ok(#[trigger] g[t]) && g[t] <= 0x4000_0000,
    ensures
        moved_grid(g, n, d).len() == n * n,
        forall|t: int|
            0 <= t < n * n ==> tile_ok(#[trigger] moved_grid(g, n, d)[t]) && moved_grid(
                g,
                n,
                d,
            )[t] <= 0x8000_0000,
{
    assert forall|t: int| 0 <= t < n * n implies tile_ok(#[trigger] moved_grid(g, n, d)[t])
        && moved_grid(g, n, d)[t] <= 0x8000_0000 by {
        lemma_idx_a(d, n, t);
        let i = line_of(d, n, t);
        let line = line_seq(g, n, d, i);
        assert forall|j2: int| 0 <= j2 < line.len() implies tile_ok(#[trigger] line[j2])
            && line[j2] <= 0x4000_0000 by {
            lemma_idx_b(d, n, i, j2);
        }
        lemma_slid_line_props(line, 0x4000_0000);
    }
}

/// The per-line gains of a move are nonnegative and bounded.
pub proof fn lemma_lines_gain_bound(g: Seq<u32>, n: int, d: MoveDir, k: int)
    requires
        1 <= n <= 8,
        g.len() == n * n,
        0 <= k <= n,
        forall|t: int| 0 <= t < g.len() ==> tile_ok(#[trigger] g[t]) && g[t] <= 0x4000_0000,
    ensures
        0 <= lines_gain(g, n, d, k),
        lines_gain(g, n, d, k) <= k * 0x8_0000_0000,
    decreases k,
{
    if k > 0 {
        lemma_lines_gain_bound(g, n, d, k - 1);
        let line = line_seq(g, n, d, k - 1);
        assert forall|j2: int| 0 <= j2 < line.len() implies tile_ok(#[trigger] line[j2])
            && line[j2] <= 0x4000_0000 by {
            lemma_idx_b(d, n, k - 1, j2);
        }
        lemma_slid_line_props(line, 0x4000_0000);
        assert(merge_score(nonzeros(line)) <= 0x4000_0000 * 8);
        assert((k - 1) * 0x8_0000_0000 + 0x8_0000_0000 == k * 0x8_0000_0000)
            by (nonlinear_arith);
    }
}

/// 1 for an empty cell, 0 for a tile.
pub open spec fn empty_ind(v: u32) -> int {
    if v == 0 {
        1
    } else {
        0
    }
}

/// Number of collisions in the first `k` lines of a move in direction `d`.
pub open spec fn lines_merges(g: Seq<u32>, n: int, d: MoveDir, k: int) -> int
    decreases k,
{
    if k <= 0 {
        0
    } else {
        lines_merges(g, n, d, k - 1) + merge_count(nonzeros(line_seq(g, n, d, k - 1)))
    }
}

/// Number of collisions of a move in direction `d`.
pub open spec fn move_merges(g: Seq<u32>, n: int, d: MoveDir) -> int {
    lines_merges(g, n, d, n)
}

/// Empty cells in column `i`, rows 0 to `k` exclusive.
spec fn col_empties(g: Seq<u32>, n: int, i: int, k: int) -> int
    decreases k,
{
    if k <= 0 {
        0
    } else {
        col_empties(g, n, i, k - 1) + empty_ind(g[(k - 1) * n + i])
    }
}

/// Empty cells in columns 0 to `m` exclusive, rows 0 to `k` exclusive.
spec fn cols_sum(g: Seq<u32>, n: int, m: int, k: int) -> int
    decreases m,
{
    if m <= 0 {
        0
    } else {
        cols_sum(g, n, m - 1, k) + col_empties(g, n, m - 1, k)
    }
}

/// Empty cells among the first `m` cells of row `k`.
spec fn row_part(g: Seq<u32>, n: int, k: int, m: int) -> int
    decreases m,
{
    if m <= 0 {
        0
    } else {
        row_part(g, n, k, m - 1) + empty_ind(g[k * n + (m - 1)])
    }
}

/// Empty cells in the lines 0 to `k` exclusive of a move in direction `d`.
spec fn sum_line_empties(g: Seq<u32>, n: int, d: MoveDir, k: int) -> int
    decreases k,
{
    if k <= 0 {
        0
    } else {
        sum_line_empties(g, n, d, k - 1) + count_empty(line_seq(g, n, d, k - 1))
    }
}

proof fn lemma_count_empty_take_step(s: Seq<u32>, k: int)
    requires
        0 <= k < s.len(),
    ensures
        count_empty(s.take(k + 1)) == count_empty(s.take(k)) + empty_ind(s[k]),
{
    lemma_nonzeros_take_step(s, k);
}

/// Empty cells among the first `m` of row `k` are a prefix difference.
proof fn lemma_row_part(g: Seq<u32>, n: int, k: int, m: int)
    requires
        1 <= n,
        0 <= k < n,
        0 <= m <= n,
        g.len() == n * n,
    ensures
        row_part(g, n, k, m) == count_empty(g.take(k * n + m)) - count_empty(g.take(k * n)),
    decreases m,
{
    lemma_rowmajor(n, k, 0);
    if m > 0 {
        lemma_row_part(g, n, k, m - 1);
        lemma_rowmajor(n, k, m - 1);
        lemma_count_empty_take_step(g, k * n + (m - 1));
    }
}

/// A full row of empties at a time: summing columns row by row walks the
/// row-major prefix.
proof fn lemma_cols_sum_step(g: Seq<u32>, n: int, m: int, k: int)
    requires
        1 <= n,
        1 <= k <= n,
        0 <= m <= n,
        g.len() == n * n,
    ensures
        cols_sum(g, n, m, k) == cols_sum(g, n, m, k - 1) + row_part(g, n, k - 1, m),
    decreases m,
{
    if m > 0 {
        lemma_cols_sum_step(g, n, m - 1, k);
    }
}

/// The whole grid's empty count, column by column.
proof fn lemma_cols_sum_total(g: Seq<u32>, n: int, k: int)
    requires
        1 <= n,
        0 <= k <= n,
        g.len() == n * n,
    ensures
        cols_sum(g, n, n, k) == count_empty(g.take(k * n)),
    decreases k,
{
    if k == 0 {
        assert(g.take(0) =~= Seq::<u32>::empty());
        lemma_cols_sum_zero(g, n, n);
    } else {
        lemma_cols_sum_total(g, n, k - 1);
        lemma_cols_sum_step(g, n, n, k);
        lemma_row_part(g, n, k - 1, n);
        assert((k - 1) * n + n == k * n) by (nonlinear_arith);
    }
}

proof fn lemma_cols_sum_zero(g: Seq<u32>, n: int, m: int)
    requires
        0 <= m,
    ensures
        cols_sum(g, n, m, 0) == 0,
    decreases m,
{
    if m > 0 {
        lemma_cols_sum_zero(g, n, m - 1);
    }
}

/// Empty cells of one traversal line, as prefix differences or column
/// counts of the grid.
proof fn lemma_line_empties(g: Seq<u32>, n: int, d: MoveDir, i: int, j: int)
    requires
        1 <= n,
        0 <= i < n,
        0 <= j <= n,
        g.len() == n * n,
    ensures
        count_empty(line_seq(g, n, d, i).take(j)) == match d {
            MoveDir::Left => count_empty(g.take(i * n + j)) - count_empty(g.take(i * n)),
            MoveDir::Right => count_empty(g.take(i * n + n)) - count_empty(
                g.take(i * n + n - j),
            ),
            MoveDir::Up => col_empties(g, n, i, j),
            MoveDir::Down => col_empties(g, n, i, n) - col_empties(g, n, i, n - j),
        },
    decreases j,
{
    let line = line_seq(g, n, d, i);
    if j == 0 {
        assert(line.take(0) =~= Seq::<u32>::empty());
    } else {
        lemma_line_empties(g, n, d, i, j - 1);
        assert(line.take(j).drop_last() =~= line.take(j - 1));
        assert(line.take(j).last() == line[j - 1]);
        assert(line[j - 1] == g[flat_idx(d, n, i, j - 1)]);
        lemma_idx_b(d, n, i, j - 1);
        match d {
            MoveDir::Left => {
                lemma_count_empty_take_step(g, i * n + (j - 1));
            },
            MoveDir::Right => {
                lemma_count_empty_take_step(g, i * n + (n - 1 - (j - 1)));
                assert(i * n + (n - 1 - (j - 1)) + 1 == i * n + n - (j - 1));
            },
            MoveDir::Up => {
                assert(col_empties(g, n, i, j) == col_empties(g, n, i, j - 1) + empty_ind(
                    g[(j - 1) * n + i],
                ));
            },
            MoveDir::Down => {
                assert(col_empties(g, n, i, n - (j - 1)) == col_empties(g, n, i, n - j)
                    + empty_ind(g[(n - j) * n + i]));
                assert((n - 1 - (j - 1)) * n + i == (n - j) * n + i);
            },
        }
    }
}

/// The lines of a move partition the grid: their empty counts sum to the
/// grid's empty count, in every direction.
proof fn lemma_count_partition(g: Seq<u32>, n: int, d: MoveDir, k: int)
    requires
        1 <= n,
        0 <= k <= n,
        g.len() == n * n,
    ensures
        sum_line_empties(g, n, d, k) == match d {
            MoveDir::Left => count_empty(g.take(k * n)),
            MoveDir::Right => count_empty(g.take(k * n)),
            MoveDir::Up => cols_sum(g, n, k, n),
            MoveDir::Down => cols_sum(g, n, k, n),
        },
    decreases k,
{
    if k > 0 {
        lemma_count_partition(g, n, d, k - 1);
        let line = line_seq(g, n, d, k - 1);
        lemma_line_empties(g, n, d, k - 1, n);
        assert(line.take(n as int) =~= line);
        match d {
            MoveDir::Left => {
                assert((k - 1) * n + n == k * n) by (nonlinear_arith);
            },
            MoveDir::Right => {
                assert((k - 1) * n + n == k * n) by (nonlinear_arith);
                assert((k - 1) * n + n - n == (k - 1) * n);
            },
            MoveDir::Up => {
                assert(col_empties(g, n, k - 1, n) - col_empties(g, n, k - 1, 0) == col_empties(
                    g,
                    n,
                    k - 1,
                    n,
                ));
            },
            MoveDir::Down => {},
        }
    }
}

/// Each traversal line of the moved grid is the slid pre-move line.
proof fn lemma_moved_lines(g: Seq<u32>, n: int, d: MoveDir, i: int)
    requires
        1 <= n,
        0 <= i < n,
        g.len() == n * n,
    ensures
        line_seq(moved_grid(g, n, d), n, d, i) == slid_line(line_seq(g, n, d, i)),
{
    let moved = moved_grid(g, n, d);
    let line = line_seq(g, n, d, i);
    assert forall|j: int| 0 <= j < n implies line_seq(moved, n, d, i)[j] == slid_line(
        line,
    )[j] by {
        lemma_idx_b(d, n, i, j);
    }
    assert(line_seq(moved, n, d, i) =~= slid_line(line));
}

/// Spawn conservation, slide part: the slide-and-merge pass of a move frees
/// exactly one cell per collision, over the whole grid. `move_tiles` then
/// states that an effective move refills exactly one freed cell, so after
/// an effective move the count of nonzero cells is the count before, minus
/// the number of merges, plus one.
pub proof fn lemma_spawn_conservation(g: Seq<u32>, n: int, d: MoveDir)
    requires
        1 <= n <= 8,
        g.len() == n * n,
        forall|t: int| 0 <= t < g.len() ==> tile_ok(#[trigger] g[t]) && g[t] <= 0x4000_0000,
    ensures
        count_empty(moved_grid(g, n, d)) == count_empty(g) + move_merges(g, n, d),
{
    let moved = moved_grid(g, n, d);
    lemma_moved_grid_props(g, n, d);
    // each moved line holds one more empty cell per collision of its source
    assert forall|i: int| 0 <= i < n implies count_empty(
        #[trigger] line_seq(moved, n, d, i),
    ) == count_empty(line_seq(g, n, d, i)) + merge_count(nonzeros(line_seq(g, n, d, i))) by {
        lemma_moved_lines(g, n, d, i);
        let line = line_seq(g, n, d, i);
        assert forall|j2: int| 0 <= j2 < line.len() implies tile_ok(#[trigger] line[j2])
            && line[j2] <= 0x4000_0000 by {
            lemma_idx_b(d, n, i, j2);
        }
        lemma_slid_line_props(line, 0x4000_0000);
    }
    // so the sums over all lines differ by the total number of merges
    lemma_sum_lines_diff(g, moved, n, d, n);
    // and each sum is the grid's own empty count
    lemma_partition_total(g, n, d);
    lemma_partition_total(moved, n, d);
}

/// Summing the per-line difference over the first `k` lines.
proof fn lemma_sum_lines_diff(g: Seq<u32>, moved: Seq<u32>, n: int, d: MoveDir, k: int)
    requires
        1 <= n,
        0 <= k <= n,
        forall|i: int|
            0 <= i < n ==> count_empty(#[trigger] line_seq(moved, n, d, i)) == count_empty(
                line_seq(g, n, d, i),
            ) + merge_count(nonzeros(line_seq(g, n, d, i))),
    ensures
        sum_line_empties(moved, n, d, k) == sum_line_empties(g, n, d, k) + lines_merges(
            g,
            n,
            d,
            k,
        ),
    decreases k,
{
    if k > 0 {
        lemma_sum_lines_diff(g, moved, n, d, k - 1);
    }
}

/// The per-line empty counts of any direction sum to the grid's.
proof fn lemma_partition_total(g: Seq<u32>, n: int, d: MoveDir)
    requires
        1 <= n,
        g.len() == n * n,
    ensures
        sum_line_empties(g, n, d, n) == count_empty(g),
    decreases n,
{
    lemma_count_partition(g, n, d, n);
    match d {
        MoveDir::Left => {
            assert(g.take(n * n) =~= g);
        },
        MoveDir::Right => {
            assert(g.take(n * n) =~= g);
        },
        MoveDir::Up => {
            lemma_cols_sum_total(g, n, n);
            assert(g.take(n * n) =~= g);
        },
        MoveDir::Down => {
            lemma_cols_sum_total(g, n, n);
            assert(g.take(n * n) =~= g);
        },
    }
}

/// The playing board: a square grid of tiles, the score this game has
/// accumulated, the latched `won` flag and the tile value that wins.
pub struct Board {
    pub size: usize,
    pub cells: Vec<u32>,
    pub score: u64,
    pub won: bool,
    pub win_value: u32,
}

impl Board {
    /// Well-formed board: a size within the allowed range and a square grid
    /// of valid tiles.
    pub open spec fn wf(self) -> bool {
        &&& 3 <= self.size <= 8
        &&& self.cells@.len() == self.size * self.size
        &&& forall|t: int| 0 <= t < self.cells@.len() ==> tile_ok(#[trigger] self.cells@[t])
    }

    /// Every tile is at most `b`.
    pub open spec fn tiles_le(self, b: u32) -> bool {
        forall|t: int| 0 <= t < self.cells@.len() ==> #[trigger] self.cells@[t] <= b
    }
}

fn flat_index(d: MoveDir, n: usize, i: usize, j: usize) -> (t: usize)
    requires
        1 <= n <= 8,
        i < n,
        j < n,
    ensures
        t == flat_idx(d, n as int, i as int, j as int),
        t < n * n,
{
    proof {
        lemma_idx_b(d, n as int, i as int, j as int);
        assert((i as int) * (n as int) + (j as int) < 64 && (j as int) * (n as int) + (
        i as int) < 64 && ((n - 1 - j) as int) * (n as int) + (i as int) < 64 && (
        i as int) * (n as int) + ((n - 1 - j) as int) < 64) by (nonlinear_arith)
            requires i < n, j < n, n <= 8;
        assert((n as int) * (n as int) <= 64) by (nonlinear_arith)
            requires n <= 8;
    }
    match d {
        MoveDir::Left => i * n + j,
        MoveDir::Right => i * n + (n - 1 - j),
        MoveDir::Up => j * n + i,
        MoveDir::Down => (n - 1 - j) * n + i,
    }
}

impl Board {
    /// Slides and merges every line in direction `d` and adds the merge
    /// score, all exactly as `moved_grid` and `move_gain` state; reports
    /// whether the grid changed and leaves the board untouched when not.
    /// No tile is spawned here.
    ///
    /// Callers keep every tile at or below 2^30 and the score at or below
    /// 2^63: the machine limits under which a doubled tile still fits a
    /// `u32` and the gained score a `u64`. No reachable game comes near
    /// either bound.
    pub fn apply_move(&mut self, d: MoveDir) -> (effective: bool)
        requires
            old(self).wf(),
            old(self).tiles_le(0x4000_0000),
            old(self).score <= 0x8000_0000_0000_0000,
        ensures
            final(self).size == old(self).size,
            final(self).won == old(self).won,
            final(self).win_value == old(self).win_value,
            final(self).wf(),
            final(self).tiles_le(0x8000_0000),
            effective == move_effective(old(self).cells@, old(self).size as int, d),
            effective ==> final(self).cells@ == moved_grid(
                old(self).cells@,
                old(self).size as int,
                d,
            ) && final(self).score == old(self).score + move_gain(
                old(self).cells@,
                old(self).size as int,
                d,
            ),
            !effective ==> *final(self) == *old(self),
            final(self).score >= old(self).score,
    {
        let n = self.size;
        let ghost g0 = self.cells@;
        let ghost ni = n as int;
        let ghost s0 = *self;
        proof {
            assert((n as int) * (n as int) <= 64) by (nonlinear_arith)
                requires n <= 8;
        }
        let total = n * n;
        let mut new_cells: Vec<u32> = Vec::new();
        let mut z: usize = 0;
        while z < total
            invariant
                0 <= z <= total,
                new_cells@.len() == z,
                forall|t: int| 0 <= t < z ==> #[trigger] new_cells@[t] == 0,
            decreases total - z,
        {
            new_cells.push(0);
            z = z + 1;
        }
        let mut gained: u64 = 0;
        let mut changed: bool = false;
        let mut i: usize = 0;
        proof {
            lemma_moved_grid_props(g0, ni, d);
        }
        while i < n
            invariant
                0 <= i <= n,
                3 <= n <= 8,
                ni == n,
                *self == s0,
                self.size == n,
                self.cells@ == g0,
                g0.len() == n * n,
                forall|t: int|
                    0 <= t < g0.len() ==> tile_ok(#[trigger] g0[t]) && g0[t] <= 0x4000_0000,
                new_cells@.len() == n * n,
                forall|t: int|
                    0 <= t < n * n ==> #[trigger] new_cells@[t] == (if line_of(d, ni, t)
                        < i {
                        moved_grid(g0, ni, d)[t]
                    } else {
                        0u32
                    }),
                changed == exists|i2: int|
                    0 <= i2 < i && slid_line(#[trigger] line_seq(g0, ni, d, i2)) != line_seq(
                        g0,
                        ni,
                        d,
                        i2,
                    ),
                gained == lines_gain(g0, ni, d, i as int),
                gained <= 0x8_0000_0000u64 * (i as u64),
            decreases n - i,
        {
            // extract line i of the unchanged grid
            let mut line: Vec<u32> = Vec::new();
            let mut j: usize = 0;
            while j < n
                invariant
                    0 <= j <= n,
                    i < n,
                    3 <= n <= 8,
                    ni == n,
                    self.cells@ == g0,
                    g0.len() == n * n,
                    line@.len() == j,
                    forall|j2: int|
                        0 <= j2 < j ==> #[trigger] line@[j2] == g0[flat_idx(
                            d,
                            ni,
                            i as int,
                            j2,
                        )],
                decreases n - j,
            {
                let t = flat_index(d, n, i, j);
                let v = self.cells[t];
                line.push(v);
                j = j + 1;
            }
            proof {
                assert(line@ =~= line_seq(g0, ni, d, i as int));
                assert forall|k: int| 0 <= k < line@.len() implies tile_ok(
                    #[trigger] line@[k],
                ) && line@[k] <= 0x4000_0000 by {
                    lemma_idx_b(d, ni, i as int, k);
                }
            }
            let (slid, g) = slide_line(&line);
            let ghost lm = moved_grid(g0, ni, d);
            // write the slid line back and note whether it differs
            let mut line_changed: bool = false;
            let mut j: usize = 0;
            while j < n
                invariant
                    0 <= j <= n,
                    i < n,
                    3 <= n <= 8,
                    ni == n,
                    g0.len() == n * n,
                    lm == moved_grid(g0, ni, d),
                    line@ == line_seq(g0, ni, d, i as int),
                    slid@ == slid_line(line@),
                    slid@.len() == n,
                    new_cells@.len() == n * n,
                    forall|t: int|
                        0 <= t < n * n ==> #[trigger] new_cells@[t] == (if line_of(d, ni, t)
                            < i || (line_of(d, ni, t) == i && 0 <= pos_of(d, ni, t) < j) {
                            lm[t]
                        } else {
                            0u32
                        }),
                    line_changed == exists|k: int|
                        0 <= k < j && #[trigger] slid@[k] != line@[k],
                decreases n - j,
            {
                let t = flat_index(d, n, i, j);
                let v = slid[j];
                if v != line[j] {
                    line_changed = true;
                }
                let ghost before = new_cells@;
                new_cells[t] = v;
                proof {
                    lemma_idx_b(d, ni, i as int, j as int);
                    assert(lm[t as int] == slid@[j as int]);
                    assert(new_cells@ =~= before.update(t as int, v));
                    assert forall|t2: int|
                        0 <= t2 < n * n implies #[trigger] new_cells@[t2] == (if line_of(
                            d,
                            ni,
                            t2,
                        ) < i || (line_of(d, ni, t2) == i && 0 <= pos_of(d, ni, t2) < j + 1) {
                            lm[t2]
                        } else {
                            0u32
                        }) by {
                        lemma_idx_a(d, ni, t2);
                        if t2 != t as int {
                            assert(new_cells@[t2] == before[t2]);
                        }
                    }
                }
                j = j + 1;
            }
            proof {
                // the whole line i is now written
                assert forall|t: int|
                    0 <= t < n * n implies #[trigger] new_cells@[t] == (if line_of(d, ni, t)
                        < i + 1 {
                        lm[t]
                    } else {
                        0u32
                    }) by {
                    lemma_idx_a(d, ni, t);
                }
                // line_changed says exactly whether this line moved
                if !line_changed {
                    assert forall|k: int| 0 <= k < n implies slid@[k] == line@[k] by {}
                    assert(slid@ =~= line@);
                }
                assert(line_changed == (slid_line(line_seq(g0, ni, d, i as int)) != line_seq(
                    g0,
                    ni,
                    d,
                    i as int,
                )));
            }
            changed = changed || line_changed;
            gained = gained + g;
            proof {
                assert(lines_gain(g0, ni, d, i as int + 1) == lines_gain(g0, ni, d, i as int)
                    + merge_score(nonzeros(line_seq(g0, ni, d, i as int))));
            }
            i = i + 1;
        }
        proof {
            let lm = moved_grid(g0, ni, d);
            assert forall|t: int| 0 <= t < n * n implies #[trigger] new_cells@[t] == lm[t] by {
                lemma_idx_a(d, ni, t);
            }
            assert(new_cells@ =~= lm);
            if changed {
                let i2 = choose|i2: int|
                    0 <= i2 < n && slid_line(#[trigger] line_seq(g0, ni, d, i2)) != line_seq(
                        g0,
                        ni,
                        d,
                        i2,
                    );
                let line = line_seq(g0, ni, d, i2);
                let slid = slid_line(line);
                assert(exists|k: int| 0 <= k < n && #[trigger] slid[k] != line[k]) by {
                    if forall|k: int| 0 <= k < n ==> #[trigger] slid[k] == line[k] {
                        assert(slid =~= line);
                        assert(false);
                    }
                }
                let k = choose|k: int| 0 <= k < n && #[trigger] slid[k] != line[k];
                lemma_idx_b(d, ni, i2, k);
                let t = flat_idx(d, ni, i2, k);
                assert(lm[t] == slid[k]);
                assert(g0[t] == line[k]);
                assert(lm != g0);
            } else {
                assert forall|t: int| 0 <= t < n * n implies #[trigger] lm[t] == g0[t] by {
                    lemma_idx_a(d, ni, t);
                    let i2 = line_of(d, ni, t);
                    assert(slid_line(line_seq(g0, ni, d, i2)) == line_seq(g0, ni, d, i2));
                    assert(g0[t] == line_seq(g0, ni, d, i2)[pos_of(d, ni, t)]);
                }
                assert(lm =~= g0);
            }
            lemma_lines_gain_bound(g0, ni, d, ni);
        }
        if changed {
            self.cells = new_cells;
            self.score = self.score + gained;
        }
        changed
    }
}

/// Appending an empty cell leaves the nonzero entries alone; appending a
/// tile appends it to them.
proof fn lemma_nonzeros_take_step(s: Seq<u32>, k: int)
    requires
        0 <= k < s.len(),
    ensures
        s[k] != 0 ==> nonzeros(s.take(k + 1)) == nonzeros(s.take(k)).push(s[k]),
        s[k] == 0 ==> nonzeros(s.take(k + 1)) == nonzeros(s.take(k)),
        count_empty(s.take(k + 1)) == count_empty(s.take(k)) + (if s[k] == 0 {
            1int
        } else {
            0
        }),
{
    assert(s.take(k + 1).drop_last() =~= s.take(k));
    assert(s.take(k + 1).last() == s[k]);
}

/// Turning an empty cell into a tile removes exactly one empty cell.
proof fn lemma_count_empty_update(s: Seq<u32>, t: int, v: u32)
    requires
        0 <= t < s.len(),
        s[t] == 0,
        v != 0,
    ensures
        count_empty(s.update(t, v)) == count_empty(s) - 1,
    decreases s.len(),
{
    let u = s.update(t, v);
    if t == s.len() - 1 {
        assert(u.drop_last() =~= s.drop_last());
        assert(u.last() == v);
        assert(s.last() == 0);
    } else {
        assert(u.drop_last() =~= s.drop_last().update(t, v));
        assert(u.last() == s.last());
        lemma_count_empty_update(s.drop_last(), t, v);
    }
}

/// Number of empty cells held by `v`.
fn count_zeros(v: &Vec<u32>) -> (c: usize)
    ensures
        c == count_empty(v@),
{
    let n = v.len();
    let mut c: usize = 0;
    let mut k: usize = 0;
    while k < n
        invariant
            0 <= k <= n,
            n == v@.len(),
            c <= k,
            c == count_empty(v@.take(k as int)),
        decreases n - k,
    {
        proof {
            lemma_nonzeros_take_step(v@, k as int);
        }
        if v[k] == 0 {
            c = c + 1;
        }
        k = k + 1;
    }
    proof {
        assert(v@.take(n as int) =~= v@);
    }
    c
}

/// The index of the `k`-th empty cell of `v`, in row-major order.
fn kth_empty(v: &Vec<u32>, k: usize) -> (t: usize)
    requires
        k < count_empty(v@),
    ensures
        t < v@.len(),
        v@[t as int] == 0,
        count_empty(v@.take(t as int)) == k,
{
    let n = v.len();
    let mut seen: usize = 0;
    let mut t: usize = 0;
    while t < n
        invariant
            0 <= t <= n,
            n == v@.len(),
            k < count_empty(v@),
            seen <= k,
            seen == count_empty(v@.take(t as int)),
        decreases n - t,
    {
        proof {
            lemma_nonzeros_take_step(v@, t as int);
        }
        if v[t] == 0 {
            if seen == k {
                return t;
            }
            seen = seen + 1;
        }
        t = t + 1;
    }
    proof {
        assert(v@.take(n as int) =~= v@);
        assert(false);
    }
    0
}

impl Board {
    /// Places a fresh tile `v` on the `k`-th empty cell, in row-major order.
    pub fn spawn_at(&mut self, k: usize, v: u32)
        requires
            old(self).wf(),
            k < count_empty(old(self).cells@),
            v == 2 || v == 4,
        ensures
            final(self).wf(),
            final(self).size == old(self).size,
            final(self).score == old(self).score,
            final(self).won == old(self).won,
            final(self).win_value == old(self).win_value,
            count_empty(final(self).cells@) == count_empty(old(self).cells@) - 1,
            exists|t: int|
                {
                    &&& 0 <= t < old(self).cells@.len()
                    &&& old(self).cells@[t] == 0
                    &&& count_empty(old(self).cells@.take(t)) == k
                    &&& final(self).cells@ == old(self).cells@.update(t, v)
                },
    {
        let t = kth_empty(&self.cells, k);
        let ghost pre = self.cells@;
        self.cells[t] = v;
        proof {
            assert(self.cells@ =~= pre.update(t as int, v));
            lemma_count_empty_update(pre, t as int, v);
            assert(is_power_of_two(1));
            assert(is_power_of_two(2));
            assert(is_power_of_two(4));
            assert(tile_ok(v));
        }
    }

    /// Spawns one tile per the spawn protocol: a uniformly random empty
    /// cell receives a 2 with probability 9/10, else a 4. A no-op on a
    /// full grid.
    pub fn spawn_random(&mut self)
        requires
            old(self).wf(),
        ensures
            final(self).wf(),
            final(self).size == old(self).size,
            final(self).score == old(self).score,
            final(self).won == old(self).won,
            final(self).win_value == old(self).win_value,
            count_empty(old(self).cells@) == 0 ==> *final(self) == *old(self),
            count_empty(old(self).cells@) > 0 ==> {
                &&& count_empty(final(self).cells@) == count_empty(old(self).cells@) - 1
                &&& exists|t: int, v: u32|
                    {
                        &&& 0 <= t < old(self).cells@.len()
                        &&& old(self).cells@[t] == 0
                        &&& (v == 2 || v == 4)
                        &&& final(self).cells@ == old(self).cells@.update(t, v)
                    }
            },
    {
        let c = count_zeros(&self.cells);
        if c == 0 {
            return;
        }
        let k = random_below(c);
        let v = random_two_or_four();
        self.spawn_at(k, v);
    }

    /// The clamped grid side a caller-supplied size yields.
    pub open spec fn clamp_size(size: usize) -> usize {
        if size < 3 {
            3usize
        } else if size > 8 {
            8usize
        } else {
            size
        }
    }

    /// A fresh board: a clamped-size empty grid, score 0, not yet won, and
    /// two independently spawned starting tiles.
    pub fn new(size: usize, win_value: u32) -> (b: Board)
        ensures
            b.wf(),
            b.size == Board::clamp_size(size),
            b.score == 0,
            !b.won,
            b.win_value == win_value,
            count_empty(b.cells@) == b.size * b.size - 2,
            forall|t: int|
                0 <= t < b.cells@.len() ==> #[trigger] b.cells@[t] == 0 || b.cells@[t] == 2
                    || b.cells@[t] == 4,
    {
        let n: usize = if size < 3 {
            3
        } else if size > 8 {
            8
        } else {
            size
        };
        proof {
            assert((n as int) * (n as int) <= 64) by (nonlinear_arith)
                requires n <= 8;
            assert((n as int) * (n as int) >= 9) by (nonlinear_arith)
                requires n >= 3;
        }
        let total = n * n;
        let mut cells: Vec<u32> = Vec::new();
        let mut z: usize = 0;
        while z < total
            invariant
                0 <= z <= total,
                cells@.len() == z,
                forall|t: int| 0 <= t < z ==> #[trigger] cells@[t] == 0,
                count_empty(cells@) == z,
            decreases total - z,
        {
            proof {
                let pushed = cells@.push(0u32);
                assert(pushed.drop_last() =~= cells@);
                assert(pushed.last() == 0);
            }
            cells.push(0);
            z = z + 1;
        }
        let mut b = Board { size: n, cells, score: 0, won: false, win_value };
        assert(b.wf());
        let ghost zeros = b.cells@;
        b.spawn_random();
        let ghost once = b.cells@;
        b.spawn_random();
        proof {
            let (t1, v1) = choose|t1: int, v1: u32|
                {
                    &&& 0 <= t1 < zeros.len()
                    &&& zeros[t1] == 0
                    &&& (v1 == 2 || v1 == 4)
                    &&& once == zeros.update(t1, v1)
                };
            let (t2, v2) = choose|t2: int, v2: u32|
                {
                    &&& 0 <= t2 < once.len()
                    &&& once[t2] == 0
                    &&& (v2 == 2 || v2 == 4)
                    &&& b.cells@ == once.update(t2, v2)
                };
            assert(forall|t: int|
                0 <= t < b.cells@.len() ==> #[trigger] b.cells@[t] == 0 || b.cells@[t] == 2
                    || b.cells@[t] == 4);
        }
        b
    }

    /// Rebuilds the board as a fresh game of the given size, keeping the
    /// win value the current difficulty set.
    pub fn reset(&mut self, size: usize)
        ensures
            final(self).wf(),
            final(self).size == Board::clamp_size(size),
            final(self).score == 0,
            !final(self).won,
            final(self).win_value == old(self).win_value,
            count_empty(final(self).cells@) == final(self).size * final(self).size - 2,
            forall|t: int|
                0 <= t < final(self).cells@.len() ==> #[trigger] final(self).cells@[t] == 0
                    || final(self).cells@[t] == 2 || final(self).cells@[t] == 4,
    {
        let w = self.win_value;
        *self = Board::new(size, w);
    }

    /// Whether some cell holds the tile `v`.
    pub fn has_tile(&self, v: u32) -> (r: bool)
        ensures
            r == exists|t: int| 0 <= t < self.cells@.len() && #[trigger] self.cells@[t] == v,
    {
        let n = self.cells.len();
        let mut t: usize = 0;
        while t < n
            invariant
                0 <= t <= n,
                n == self.cells@.len(),
                forall|t2: int| 0 <= t2 < t ==> #[trigger] self.cells@[t2] != v,
            decreases n - t,
        {
            if self.cells[t] == v {
                return true;
            }
            t = t + 1;
        }
        false
    }
}

/// Every cell holds a tile.
pub open spec fn grid_full(g: Seq<u32>) -> bool {
    forall|t: int| 0 <= t < g.len() ==> #[trigger] g[t] != 0
}

/// The cell of row `r`, column `c` on a row-major `n` x `n` grid.
pub open spec fn cell(g: Seq<u32>, n: int, r: int, c: int) -> u32 {
    g[r * n + c]
}

/// Two horizontally adjacent cells hold equal tiles somewhere.
pub open spec fn has_right_pair(g: Seq<u32>, n: int) -> bool {
    exists|r: int, c: int|
        0 <= r < n && 0 <= c < n - 1 && #[trigger] cell(g, n, r, c) == cell(g, n, r, c + 1)
}

/// Two vertically adjacent cells hold equal tiles somewhere.
pub open spec fn has_down_pair(g: Seq<u32>, n: int) -> bool {
    exists|r: int, c: int|
        0 <= r < n - 1 && 0 <= c < n && #[trigger] cell(g, n, r, c) == cell(g, n, r + 1, c)
}

/// The game is lost exactly when the grid is full and no two adjacent cells
/// (in the 4-neighborhood) hold equal tiles.
pub open spec fn game_over_spec(g: Seq<u32>, n: int) -> bool {
    grid_full(g) && !has_right_pair(g, n) && !has_down_pair(g, n)
}

impl Board {
    /// The game-over oracle: true exactly when the grid is full and no
    /// adjacent pair of equal tiles remains.
    pub fn is_game_over(&self) -> (r: bool)
        requires
            self.wf(),
        ensures
            r == game_over_spec(self.cells@, self.size as int),
    {
        let n = self.size;
        let ghost g = self.cells@;
        let ghost ni = n as int;
        let total = self.cells.len();
        let mut t: usize = 0;
        while t < total
            invariant
                0 <= t <= total,
                total == g.len(),
                g == self.cells@,
                forall|t2: int| 0 <= t2 < t ==> #[trigger] g[t2] != 0,
            decreases total - t,
        {
            if self.cells[t] == 0 {
                return false;
            }
            t = t + 1;
        }
        let mut r: usize = 0;
        while r < n
            invariant
                0 <= r <= n,
                3 <= n <= 8,
                ni == n,
                self.size == n,
                g == self.cells@,
                g.len() == n * n,
                forall|r2: int, c2: int|
                    0 <= r2 < r && 0 <= c2 < ni - 1 ==> #[trigger] cell(g, ni, r2, c2)
                        != cell(g, ni, r2, c2 + 1),
                forall|r2: int, c2: int|
                    0 <= r2 < r && r2 < ni - 1 && 0 <= c2 < ni ==> #[trigger] cell(
                        g,
                        ni,
                        r2,
                        c2,
                    ) != cell(g, ni, r2 + 1, c2),
            decreases n - r,
        {
            let mut c: usize = 0;
            while c < n
                invariant
                    0 <= c <= n,
                    0 <= r < n,
                    3 <= n <= 8,
                    ni == n,
                    self.size == n,
                    g == self.cells@,
                    g.len() == n * n,
                    forall|r2: int, c2: int|
                        0 <= r2 < r && 0 <= c2 < ni - 1 ==> #[trigger] cell(g, ni, r2, c2)
                            != cell(g, ni, r2, c2 + 1),
                    forall|r2: int, c2: int|
                        0 <= r2 < r && r2 < ni - 1 && 0 <= c2 < ni ==> #[trigger] cell(
                            g,
                            ni,
                            r2,
                            c2,
                        ) != cell(g, ni, r2 + 1, c2),
                    forall|c2: int|
                        0 <= c2 < c && c2 < ni - 1 ==> #[trigger] cell(g, ni, r as int, c2)
                            != cell(g, ni, r as int, c2 + 1),
                    forall|c2: int|
                        0 <= c2 < c && r < ni - 1 ==> #[trigger] cell(g, ni, r as int, c2)
                            != cell(g, ni, r as int + 1, c2),
                decreases n - c,
            {
                let here = self.cells[flat_index(MoveDir::Left, n, r, c)];
                if c + 1 < n {
                    let right = self.cells[flat_index(MoveDir::Left, n, r, c + 1)];
                    if here == right {
                        proof {
                            assert(cell(g, ni, r as int, c as int) == cell(
                                g,
                                ni,
                                r as int,
                                c as int + 1,
                            ));
                        }
                        return false;
                    }
                }
                if r + 1 < n {
                    let below = self.cells[flat_index(MoveDir::Left, n, r + 1, c)];
                    if here == below {
                        proof {
                            assert(cell(g, ni, r as int, c as int) == cell(
                                g,
                                ni,
                                r as int + 1,
                                c as int,
                            ));
                        }
                        return false;
                    }
                }
                c = c + 1;
            }
            r = r + 1;
        }
        true
    }

    /// One move command. Slides and merges in direction `d` exactly as
    /// `moved_grid` and `move_gain` state; when the grid changed, one tile
    /// is spawned and the `won` flag latches if the win value is on the
    /// grid. An ineffective move leaves the board bit-identical.
    ///
    /// The tile and score bounds a caller owes are the machine limits
    /// `apply_move` explains.
    pub fn move_tiles(&mut self, d: MoveDir) -> (effective: bool)
        requires
            old(self).wf(),
            old(self).tiles_le(0x4000_0000),
            old(self).score <= 0x8000_0000_0000_0000,
        ensures
            final(self).wf(),
            final(self).tiles_le(0x8000_0000),
            final(self).size == old(self).size,
            final(self).win_value == old(self).win_value,
            final(self).score >= old(self).score,
            effective == move_effective(old(self).cells@, old(self).size as int, d),
            !effective ==> *final(self) == *old(self),
            effective ==> {
                let moved = moved_grid(old(self).cells@, old(self).size as int, d);
                &&& final(self).score == old(self).score + move_gain(
                    old(self).cells@,
                    old(self).size as int,
                    d,
                )
                &&& (count_empty(moved) == 0 ==> final(self).cells@ == moved)
                &&& (count_empty(moved) > 0 ==> {
                    &&& count_empty(final(self).cells@) == count_empty(moved) - 1
                    &&& exists|t: int, v: u32|
                        {
                            &&& 0 <= t < moved.len()
                            &&& moved[t] == 0
                            &&& (v == 2 || v == 4)
                            &&& final(self).cells@ == moved.update(t, v)
                        }
                })
                &&& final(self).won == (old(self).won || exists|t: int|
                    0 <= t < final(self).cells@.len() && #[trigger] final(self).cells@[t]
                        == old(self).win_value)
            },
    {
        let effective = self.apply_move(d);
        if effective {
            let ghost moved = self.cells@;
            proof {
                assert(self.tiles_le(0x8000_0000));
            }
            self.spawn_random();
            proof {
                if count_empty(moved) > 0 {
                    let (t1, v1) = choose|t1: int, v1: u32|
                        {
                            &&& 0 <= t1 < moved.len()
                            &&& moved[t1] == 0
                            &&& (v1 == 2 || v1 == 4)
                            &&& self.cells@ == moved.update(t1, v1)
                        };
                    assert(self.cells@ == moved.update(t1, v1));
                    assert forall|t: int|
                        0 <= t < self.cells@.len() implies #[trigger] self.cells@[t]
                            <= 0x8000_0000u32 by {
                        if t != t1 {
                            assert(self.cells@[t] == moved[t]);
                        }
                    }
                } else {
                    lemma_nonzeros_props(moved, 0x8000_0000);
                    assert(count_empty(moved) == 0);
                    assert(self.cells@ == moved);
                    assert forall|t: int|
                        0 <= t < self.cells@.len() implies #[trigger] self.cells@[t]
                            <= 0x8000_0000u32 by {
                        assert(self.cells@[t] == moved[t]);
                    }
                }
                assert(self.tiles_le(0x8000_0000));
            }
            let won_now = self.has_tile(self.win_value);
            self.won = self.won || won_now;
            proof {
                assert(self.tiles_le(0x8000_0000));
            }
        } else {
            proof {
                assert(self.tiles_le(0x4000_0000));
                assert(self.tiles_le(0x8000_0000));
            }
        }
        effective
    }
}

} // verus!

