//! The integer side of mini-batch training: Fisher-Yates shuffling of
//! samples and labels together, splitting an epoch into batches, and
//! packing a batch of column vectors into one row-major block.

use vstd::prelude::*;
use crate::rng::{Rng, xorshift, advance};

verus! {

/// `s` with the entries at `i` and `j` exchanged.
pub open spec fn swap_seq<T>(s: Seq<T>, i: int, j: int) -> Seq<T> {
    s.update(i, s[j]).update(j, s[i])
}

/// Index drawn for position `i` from the generator output `draw`.
pub open spec fn pick(draw: u64, i: int) -> int {
    (draw as usize) as int % (i + 1)
}

/// Fisher-Yates swaps for positions `i`, `i - 1`, ..., 1, each drawing
/// from the generator that is in `state` before it.
pub open spec fn fisher_yates<T>(s: Seq<T>, i: int, state: u64) -> Seq<T>
    decreases i,
{
    if i <= 0 {
        s
    } else {
        let draw = xorshift(state);
        fisher_yates(swap_seq(s, i, pick(draw, i)), i - 1, draw)
    }
}

/// The first `n` entries of `s` shuffled with the generator in `state`.
pub open spec fn shuffled<T>(s: Seq<T>, n: int, state: u64) -> Seq<T> {
    fisher_yates(s, n - 1, state)
}

/// Generator state after shuffling `n` entries from `state`.
pub open spec fn state_after_shuffle(n: int, state: u64) -> u64 {
    if n < 2 {
        state
    } else {
        advance(state, (n - 1) as nat)
    }
}

/// Where each position of a shuffle of `n` entries takes its value
/// from.
pub open spec fn shuffle_order(n: int, state: u64) -> Seq<int> {
    shuffled(Seq::new(n as nat, |k: int| k), n, state)
}

/// `order` lists each of `0..n` exactly once.
pub open spec fn is_permutation(order: Seq<int>, n: int) -> bool {
    &&& order.len() == n
    &&& forall|k: int| 0 <= k < n ==> 0 <= #[trigger] order[k] < n
    &&& forall|a: int, b: int| 0 <= a < b < n ==> #[trigger] order[a] != #[trigger] order[b]
}

/// `s` rearranged by `order`: position `k` holds `s[order[k]]`.
pub open spec fn rearranged<T>(s: Seq<T>, order: Seq<int>) -> Seq<T> {
    Seq::new(order.len(), |k: int| s[order[k]])
}

proof fn lemma_fisher_yates_len<T>(s: Seq<T>, i: int, state: u64)
    requires
        i < s.len(),
    ensures
        fisher_yates(s, i, state).len() == s.len(),
    decreases i,
{
    if i > 0 {
        let draw = xorshift(state);
        lemma_fisher_yates_len(swap_seq(s, i, pick(draw, i)), i - 1, draw);
    }
}

proof fn lemma_fisher_yates_rearranges<T>(s: Seq<T>, order: Seq<int>, i: int, state: u64)
    requires
        i < order.len(),
        forall|k: int| 0 <= k < order.len() ==> 0 <= #[trigger] order[k] < s.len(),
    ensures
        fisher_yates(rearranged(s, order), i, state) == rearranged(
            s,
            fisher_yates(order, i, state),
        ),
    decreases i,
{
    if i > 0 {
        let draw = xorshift(state);
        let j = pick(draw, i);
        let swapped = swap_seq(order, i, j);
        assert(swap_seq(rearranged(s, order), i, j) =~= rearranged(s, swapped));
        lemma_fisher_yates_rearranges(s, swapped, i - 1, draw);
    }
}

proof fn lemma_fisher_yates_permutes(order: Seq<int>, n: int, i: int, state: u64)
    requires
        i < n,
        is_permutation(order, n),
    ensures
        is_permutation(fisher_yates(order, i, state), n),
    decreases i,
{
    if i > 0 {
        let draw = xorshift(state);
        let j = pick(draw, i);
        let swapped = swap_seq(order, i, j);
        assert forall|a: int, b: int| 0 <= a < b < n implies #[trigger] swapped[a]
            != #[trigger] swapped[b] by {
            let sa = if a == j { i } else if a == i { j } else { a };
            let sb = if b == j { i } else if b == i { j } else { b };
            assert(swapped[a] == order[sa]);
            assert(swapped[b] == order[sb]);
            if sa < sb {
                assert(order[sa] != order[sb]);
            } else {
                assert(order[sb] != order[sa]);
            }
        }
        lemma_fisher_yates_permutes(swapped, n, i - 1, draw);
    }
}

/// A shuffle takes every position's value from a distinct position:
/// the order it follows is a permutation, and it is the same order
/// whatever the entries are.
pub proof fn lemma_shuffle_is_permutation<T>(s: Seq<T>, n: int, state: u64)
    requires
        0 <= n <= s.len(),
    ensures
        is_permutation(shuffle_order(n, state), n),
        forall|k: int|
            0 <= k < n ==> #[trigger] shuffled(s, n, state)[k] == s[shuffle_order(n, state)[k]],
{
    let id = Seq::new(n as nat, |k: int| k);
    assert(is_permutation(id, n));
    if n > 0 {
        lemma_fisher_yates_permutes(id, n, n - 1, state);
        let t = s.subrange(0, n);
        assert(rearranged(t, id) =~= t);
        lemma_fisher_yates_rearranges(t, id, n - 1, state);
        assert forall|k: int| 0 <= k < n implies #[trigger] shuffled(s, n, state)[k] == s[shuffle_order(
            n,
            state,
        )[k]] by {
            lemma_fisher_yates_prefix(s, n, n - 1, state, k);
        }
    }
}

/// Only the first `n` entries take part in a shuffle of `n` entries.
proof fn lemma_fisher_yates_prefix<T>(s: Seq<T>, n: int, i: int, state: u64, k: int)
    requires
        0 <= i < n <= s.len(),
    ensures
        0 <= k < n ==> fisher_yates(s, i, state)[k] == fisher_yates(s.subrange(0, n), i, state)[k],
        n <= k < s.len() ==> fisher_yates(s, i, state)[k] == s[k],
    decreases i,
{
    if i > 0 {
        let draw = xorshift(state);
        let j = pick(draw, i);
        assert(swap_seq(s, i, j).subrange(0, n) =~= swap_seq(s.subrange(0, n), i, j));
        lemma_fisher_yates_prefix(swap_seq(s, i, j), n, i - 1, draw, k);
    }
}

/// Exchanges two entries of a vector.
#[verifier::external_body]
fn swap_entries<T>(v: &mut Vec<T>, i: usize, j: usize)
    requires
        i < old(v)@.len(),
        j < old(v)@.len(),
    ensures
        final(v)@ == swap_seq(old(v)@, i as int, j as int),
{
    v.swap(i, j);
}

/// Fisher-Yates shuffle of `images`, applying the same exchanges to
/// `labels` so that every sample keeps its label.
pub fn shuffle<A, B>(images: &mut Vec<A>, labels: &mut Vec<B>, rng: &mut Rng)
    requires
        old(images)@.len() < 2 || old(labels)@.len() >= old(images)@.len(),
    ensures
        final(images)@ == shuffled(old(images)@, old(images)@.len() as int, old(rng)@),
        final(labels)@ == shuffled(old(labels)@, old(images)@.len() as int, old(rng)@),
        final(rng)@ == state_after_shuffle(old(images)@.len() as int, old(rng)@),
{
    let n = images.len();
    if n < 2 {
        return;
    }
    let mut i: usize = n - 1;
    while i >= 1
        invariant
            0 <= i < n,
            images@.len() == n,
            labels@.len() == old(labels)@.len(),
            labels@.len() >= n,
            fisher_yates(images@, i as int, rng@) == fisher_yates(
                old(images)@,
                n - 1,
                old(rng)@,
            ),
            fisher_yates(labels@, i as int, rng@) == fisher_yates(
                old(labels)@,
                n - 1,
                old(rng)@,
            ),
            rng@ == advance(old(rng)@, (n - 1 - i) as nat),
        decreases i,
    {
        let draw = rng.next_u64();
        let j = (draw as usize) % (i + 1);
        swap_entries(images, i, j);
        swap_entries(labels, i, j);
        i = i - 1;
    }
}

/// The smaller of two integers.
pub open spec fn min_int(a: int, b: int) -> int {
    if a < b {
        a
    } else {
        b
    }
}

/// Splits `0..n` into consecutive batches of `batch_size` samples (the
/// last one possibly shorter), as (start, end) pairs.
pub fn batch_bounds(n: usize, batch_size: usize) -> (bounds: Vec<(usize, usize)>)
    requires
        batch_size > 0,
        n + batch_size <= usize::MAX,
    ensures
        forall|k: int|
            0 <= k < bounds@.len() ==> #[trigger] bounds@[k] == (
                (k * batch_size) as usize,
                min_int(k * batch_size + batch_size, n as int) as usize,
            ),
        bounds@.len() * batch_size >= n,
        bounds@.len() == 0 || (bounds@.len() - 1) * batch_size < n,
{
    let mut bounds: Vec<(usize, usize)> = Vec::new();
    let mut start: usize = 0;
    assert(bounds@.len() * batch_size == 0) by (nonlinear_arith)
        requires
            bounds@.len() == 0,
    ;
    while start < n
        invariant
            batch_size > 0,
            n + batch_size <= usize::MAX,
            start == bounds@.len() * batch_size,
            bounds@.len() == 0 || (bounds@.len() - 1) * batch_size < n,
            start <= n + batch_size,
            forall|k: int|
                0 <= k < bounds@.len() ==> #[trigger] bounds@[k] == (
                    (k * batch_size) as usize,
                    min_int(k * batch_size + batch_size, n as int) as usize,
                ),
        decreases n + batch_size - start,
    {
        let end = if start + batch_size < n {
            start + batch_size
        } else {
            n
        };
        let ghost k = bounds@.len();
        bounds.push((start, end));
        proof {
            assert((k + 1) * batch_size == k * batch_size + batch_size) by (nonlinear_arith);
        }
        start = start + batch_size;
    }
    bounds
}

/// Packs the column vectors `columns[start..end]` side by side into one
/// row-major block: entry (row, col) of the block, at
/// `row * (end - start) + col`, is entry `row` of column `start + col`.
/// The block has as many rows as `columns[start]` has entries.
pub fn pack_columns<T: Copy>(columns: &[Vec<T>], start: usize, end: usize) -> (block: Vec<T>)
    requires
        start < columns@.len(),
        start <= end <= columns@.len(),
        forall|idx: int|
            start <= idx < end ==> #[trigger] columns@[idx]@.len() >= columns@[start as int]@.len(),
        columns@[start as int]@.len() * (end - start) <= usize::MAX,
    ensures
        block@.len() == columns@[start as int]@.len() * (end - start),
        forall|row: int, col: int|
            0 <= row < columns@[start as int]@.len() && 0 <= col < end - start ==> block@[row * (
            end - start) + col] == #[trigger] columns@[start + col]@[row],
{
    let height = columns[start].len();
    let width = end - start;
    let mut block: Vec<T> = Vec::new();
    let mut row: usize = 0;
    while row < height
        invariant
            start < columns@.len(),
            start <= end <= columns@.len(),
            width == end - start,
            height == columns@[start as int]@.len(),
            height * width <= usize::MAX,
            forall|idx: int|
                start <= idx < end ==> #[trigger] columns@[idx]@.len() >= height,
            row <= height,
            block@.len() == row * width,
            forall|r: int, c: int|
                0 <= r < row && 0 <= c < width ==> block@[r * width + c]
                    == #[trigger] columns@[start + c]@[r],
        decreases height - row,
    {
        let mut col: usize = 0;
        while col < width
            invariant
                start < columns@.len(),
                start <= end <= columns@.len(),
                width == end - start,
                height == columns@[start as int]@.len(),
                forall|idx: int|
                    start <= idx < end ==> #[trigger] columns@[idx]@.len() >= height,
                row < height,
                col <= width,
                block@.len() == row * width + col,
                forall|r: int, c: int|
                    0 <= r < row && 0 <= c < width ==> block@[r * width + c]
                        == #[trigger] columns@[start + c]@[r],
                forall|c: int| 0 <= c < col ==> block@[row * width + c] == #[trigger] columns@[start + c]@[row as int],
            decreases width - col,
        {
            let ghost before = block@;
            let idx = start + col;
            assert(columns@[idx as int]@.len() >= height);
            let v = columns[idx][row];
            block.push(v);
            proof {
                assert forall|r: int, c: int|
                    0 <= r < row && 0 <= c < width implies block@[r * width + c]
                        == #[trigger] columns@[start + c]@[r] by {
                    assert(r * width + c < row * width) by (nonlinear_arith)
                        requires
                            0 <= r < row,
                            0 <= c < width,
                    ;
                    assert(block@[r * width + c] == before[r * width + c]);
                }
            }
            col = col + 1;
        }
        proof {
            assert((row + 1) * width == row * width + width) by (nonlinear_arith);
            assert(row * width + width <= height * width) by (nonlinear_arith)
                requires
                    row < height,
            ;
            assert forall|r: int, c: int|
                0 <= r < row + 1 && 0 <= c < width implies block@[r * width + c]
                    == #[trigger] columns@[start + c]@[r] by {
                if r == row {
                    assert(block@[row * width + c] == columns@[start + c]@[row as int]);
                }
            }
        }
        row = row + 1;
    }
    block
}

/// Width of the epoch progress bar, in characters.
pub const BAR_WIDTH: usize = 20;

/// A filled bar cell, `█` in UTF-8.
pub open spec fn filled_glyph() -> Seq<u8> {
    seq![0xe2u8, 0x96, 0x88]
}

/// An empty bar cell, `░` in UTF-8.
pub open spec fn empty_glyph() -> Seq<u8> {
    seq![0xe2u8, 0x96, 0x91]
}

/// The first `k` cells of a bar with `filled` filled cells.
pub open spec fn bar_cells(filled: int, k: int) -> Seq<u8>
    decreases k,
{
    if k <= 0 {
        seq![]
    } else {
        bar_cells(filled, k - 1) + if k - 1 < filled {
            filled_glyph()
        } else {
            empty_glyph()
        }
    }
}

/// The progress bar after `epoch` of `total` epochs: `BAR_WIDTH` cells,
/// the first `epoch * BAR_WIDTH / total` of them filled.
pub open spec fn progress_bar_text(epoch: nat, total: nat) -> Seq<u8> {
    bar_cells(((epoch * (BAR_WIDTH as nat)) / total) as int, BAR_WIDTH as int)
}

/// Renders the progress bar shown after each epoch.
pub fn progress_bar(epoch: usize, total: usize) -> (bar: Vec<u8>)
    requires
        total > 0,
        epoch * BAR_WIDTH <= usize::MAX,
    ensures
        bar@ == progress_bar_text(epoch as nat, total as nat),
{
    let filled = (epoch * BAR_WIDTH) / total;
    let mut bar: Vec<u8> = Vec::new();
    let mut k: usize = 0;
    while k < BAR_WIDTH
        invariant
            k <= BAR_WIDTH,
            filled == (epoch as nat * (BAR_WIDTH as nat)) / (total as nat),
            bar@ == bar_cells(filled as int, k as int),
        decreases BAR_WIDTH - k,
    {
        bar.push(0xe2);
        bar.push(0x96);
        if k < filled {
            bar.push(0x88);
        } else {
            bar.push(0x91);
        }
        proof {
            assert(bar@ =~= bar_cells(filled as int, k + 1));
        }
        k = k + 1;
    }
    bar
}

/// Cell `k` of a bar: its three bytes.
pub open spec fn bar_cell(bar: Seq<u8>, k: int) -> Seq<u8> {
    bar.subrange(3 * k, 3 * k + 3)
}

proof fn lemma_bar_cells_layout(filled: int, k: int)
    requires
        0 <= k,
    ensures
        bar_cells(filled, k).len() == 3 * k,
        forall|m: int|
            0 <= m < k ==> #[trigger] bar_cell(bar_cells(filled, k), m) == if m < filled {
                filled_glyph()
            } else {
                empty_glyph()
            },
    decreases k,
{
    if k > 0 {
        lemma_bar_cells_layout(filled, k - 1);
        let prev = bar_cells(filled, k - 1);
        let g = if k - 1 < filled {
            filled_glyph()
        } else {
            empty_glyph()
        };
        let all = bar_cells(filled, k);
        assert(all == prev + g);
        assert forall|m: int| 0 <= m < k implies #[trigger] bar_cell(all, m) == if m < filled {
            filled_glyph()
        } else {
            empty_glyph()
        } by {
            if m < k - 1 {
                assert(bar_cell(all, m) =~= bar_cell(prev, m));
            } else {
                assert(bar_cell(all, m) =~= g);
            }
        }
    }
}

/// The progress bar after `epoch` of `total` epochs has `BAR_WIDTH`
/// cells, and cell `k` is filled exactly when at least `k + 1` of the
/// `BAR_WIDTH` equal parts of the run are done, that is when
/// `(k + 1) * total <= epoch * BAR_WIDTH`: filled cells come first, an
/// untouched run is all empty and a finished one all filled.
pub proof fn lemma_progress_bar_fills_in_order(epoch: nat, total: nat)
    requires
        total > 0,
    ensures
        progress_bar_text(epoch, total).len() == 3 * BAR_WIDTH,
        forall|k: int|
            0 <= k < BAR_WIDTH ==> #[trigger] bar_cell(progress_bar_text(epoch, total), k) == if (k + 1)
                * total <= epoch * BAR_WIDTH {
                filled_glyph()
            } else {
                empty_glyph()
            },
{
    let a = epoch * (BAR_WIDTH as nat);
    let f = (a / total) as int;
    lemma_bar_cells_layout(f, BAR_WIDTH as int);
    assert forall|k: int| 0 <= k < BAR_WIDTH implies #[trigger] bar_cell(progress_bar_text(epoch, total), k)
        == if (k + 1) * total <= epoch * BAR_WIDTH {
        filled_glyph()
    } else {
        empty_glyph()
    } by {
        assert((k < f) == ((k + 1) * total <= a)) by (nonlinear_arith)
            requires
                0 <= k,
                total > 0,
                f == a / total,
        ;
    }
}

} // verus!
