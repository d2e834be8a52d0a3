//! Byte-level text handling shared by the file formats and the demo
//! commands: line splitting, comma and whitespace splitting, and
//! decimal numbers. Text is UTF-8; positions are byte offsets and a
//! piece of text is a half-open span `(start, end)` of the input.

use vstd::prelude::*;

verus! {

/// Number of bytes of the whitespace character (Unicode White_Space,
/// as `char::is_whitespace`) that starts at `j` and ends by `hi`, or 0
/// when no whitespace character starts there.
pub open spec fn ws_len(s: Seq<u8>, j: int, hi: int) -> int {
    let b0 = s[j];
    if b0 == 0x20 || (0x09 <= b0 && b0 <= 0x0d) {
        1
    } else if b0 == 0xc2 && j + 1 < hi && (s[j + 1] == 0x85 || s[j + 1] == 0xa0) {
        2
    } else if j + 2 < hi && ((b0 == 0xe1 && s[j + 1] == 0x9a && s[j + 2] == 0x80) || (b0 == 0xe2
        && s[j + 1] == 0x80 && ((0x80 <= s[j + 2] && s[j + 2] <= 0x8a) || s[j + 2] == 0xa8 || s[j
        + 2] == 0xa9 || s[j + 2] == 0xaf)) || (b0 == 0xe2 && s[j + 1] == 0x81 && s[j + 2] == 0x9f)
        || (b0 == 0xe3 && s[j + 1] == 0x80 && s[j + 2] == 0x80)) {
        3
    } else {
        0
    }
}

/// Byte length of the whitespace character at `j` (before `hi`), or 0.
pub fn whitespace_len(s: &[u8], j: usize, hi: usize) -> (w: usize)
    requires
        j < hi <= s@.len(),
    ensures
        w == ws_len(s@, j as int, hi as int),
{
    let b0 = s[j];
    if b0 == 0x20 || (0x09 <= b0 && b0 <= 0x0d) {
        1
    } else if b0 == 0xc2 && j + 1 < hi && (s[j + 1] == 0x85 || s[j + 1] == 0xa0) {
        2
    } else if hi - j > 2 && ((b0 == 0xe1 && s[j + 1] == 0x9a && s[j + 2] == 0x80) || (b0 == 0xe2
        && s[j + 1] == 0x80 && ((0x80 <= s[j + 2] && s[j + 2] <= 0x8a) || s[j + 2] == 0xa8 || s[j
        + 2] == 0xa9 || s[j + 2] == 0xaf)) || (b0 == 0xe2 && s[j + 1] == 0x81 && s[j + 2] == 0x9f)
        || (b0 == 0xe3 && s[j + 1] == 0x80 && s[j + 2] == 0x80)) {
        3
    } else {
        0
    }
}

/// The text of a span.
pub open spec fn text_of(s: Seq<u8>, span: (int, int)) -> Seq<u8> {
    s.subrange(span.0, span.1)
}

/// Whether the text of `lo..hi` equals `lit`.
pub fn span_equals(s: &[u8], lo: usize, hi: usize, lit: &Vec<u8>) -> (r: bool)
    requires
        lo <= hi <= s@.len(),
    ensures
        r == (s@.subrange(lo as int, hi as int) == lit@),
{
    if hi - lo != lit.len() {
        proof {
            assert(s@.subrange(lo as int, hi as int).len() != lit@.len());
        }
        return false;
    }
    let mut k: usize = 0;
    while k < lit.len()
        invariant
            lo <= hi <= s@.len(),
            hi - lo == lit@.len(),
            k <= lit@.len(),
            forall|m: int| 0 <= m < k ==> s@[lo + m] == lit@[m],
        decreases lit@.len() - k,
    {
        if s[lo + k] != lit[k] {
            proof {
                assert(s@.subrange(lo as int, hi as int)[k as int] != lit@[k as int]);
            }
            return false;
        }
        k = k + 1;
    }
    proof {
        assert(s@.subrange(lo as int, hi as int) =~= lit@);
    }
    true
}

// ---------------------------------------------------------------------
// Lines
// ---------------------------------------------------------------------

/// End of a line that stops at the newline at `e`: a carriage return
/// just before the newline is not part of the line.
pub open spec fn line_end(s: Seq<u8>, start: int, e: int) -> int {
    if e > start && s[e - 1] == 0x0d {
        e - 1
    } else {
        e
    }
}

/// The lines of `s` from the line that starts at `start`, scanning from
/// `j`: text between `\n` characters, without the `\n` and without a
/// `\r` just before it; a final `\n` does not start an empty line.
pub open spec fn lines_scan(s: Seq<u8>, start: int, j: int) -> Seq<(int, int)>
    decreases s.len() - j,
{
    if j >= s.len() {
        if start < s.len() {
            seq![(start, s.len() as int)]
        } else {
            seq![]
        }
    } else if s[j] == 0x0a {
        seq![(start, line_end(s, start, j))] + lines_scan(s, j + 1, j + 1)
    } else {
        lines_scan(s, start, j + 1)
    }
}

/// The lines of `s`, as spans.
pub open spec fn lines(s: Seq<u8>) -> Seq<(int, int)> {
    lines_scan(s, 0, 0)
}

proof fn lemma_lines_scan_len(s: Seq<u8>, start: int, j: int)
    requires
        0 <= start <= j <= s.len(),
    ensures
        lines_scan(s, start, j).len() <= s.len() - start,
    decreases s.len() - j,
{
    if j < s.len() {
        if s[j] == 0x0a {
            lemma_lines_scan_len(s, j + 1, j + 1);
        } else {
            lemma_lines_scan_len(s, start, j + 1);
        }
    }
}

proof fn lemma_lines_bounds(s: Seq<u8>)
    ensures
        forall|m: int|
            0 <= m < lines(s).len() ==> 0 <= (#[trigger] lines(s)[m]).0 <= lines(s)[m].1 <= s.len(),
{
    lemma_lines_scan_bounds(s, 0, 0);
}

proof fn lemma_lines_scan_bounds(s: Seq<u8>, start: int, j: int)
    requires
        0 <= start <= j <= s.len(),
    ensures
        forall|m: int|
            0 <= m < lines_scan(s, start, j).len() ==> start <= (#[trigger] lines_scan(
                s,
                start,
                j,
            )[m]).0 <= lines_scan(s, start, j)[m].1 <= s.len(),
    decreases s.len() - j,
{
    if j < s.len() {
        if s[j] == 0x0a {
            lemma_lines_scan_bounds(s, j + 1, j + 1);
            let head = seq![(start, line_end(s, start, j))];
            let rest = lines_scan(s, j + 1, j + 1);
            assert(lines_scan(s, start, j) == head + rest);
            assert forall|m: int| 0 <= m < lines_scan(s, start, j).len() implies start <= (
            #[trigger] lines_scan(s, start, j)[m]).0 <= lines_scan(s, start, j)[m].1 <= s.len() by {
                if m > 0 {
                    assert(lines_scan(s, start, j)[m] == rest[m - 1]);
                }
            }
        } else {
            lemma_lines_scan_bounds(s, start, j + 1);
            assert(lines_scan(s, start, j) == lines_scan(s, start, j + 1));
        }
    } else if start < s.len() {
        assert(lines_scan(s, start, j) =~= seq![(start, s.len() as int)]);
    } else {
        assert(lines_scan(s, start, j).len() == 0);
    }
}

/// Splits `s` into lines (see `lines`).
pub fn split_lines(s: &[u8]) -> (r: Vec<(usize, usize)>)
    ensures
        r@.len() == lines(s@).len(),
        r@.len() <= s@.len(),
        forall|k: int|
            0 <= k < r@.len() ==> (#[trigger] r@[k]).0 == lines(s@)[k].0 && r@[k].1 == lines(
                s@,
            )[k].1,
        forall|k: int| 0 <= k < r@.len() ==> 0 <= (#[trigger] r@[k]).0 <= r@[k].1 <= s@.len(),
{
    proof {
        lemma_lines_scan_len(s@, 0, 0);
        lemma_lines_bounds(s@);
    }
    let mut r: Vec<(usize, usize)> = Vec::new();
    let mut start: usize = 0;
    let mut j: usize = 0;
    let ghost done: Seq<(int, int)> = seq![];
    while j < s.len()
        invariant
            start <= j <= s@.len(),
            done + lines_scan(s@, start as int, j as int) == lines(s@),
            r@.len() == done.len(),
            forall|k: int|
                0 <= k < r@.len() ==> (#[trigger] r@[k]).0 == done[k].0 && r@[k].1 == done[k].1,
            forall|k: int| 0 <= k < done.len() ==> 0 <= (#[trigger] done[k]).0 <= done[k].1 <= s@.len(),
        decreases s@.len() - j,
    {
        if s[j] == 0x0a {
            let end = if j > start && s[j - 1] == 0x0d {
                j - 1
            } else {
                j
            };
            r.push((start, end));
            proof {
                let piece = seq![(start as int, end as int)];
                assert((done + piece) + lines_scan(s@, j + 1, j + 1) =~= done + lines_scan(
                    s@,
                    start as int,
                    j as int,
                ));
                done = done + piece;
            }
            start = j + 1;
        }
        j = j + 1;
    }
    if start < s.len() {
        r.push((start, s.len()));
        proof {
            let piece = seq![(start as int, s@.len() as int)];
            done = done + piece;
        }
    }
    proof {
        assert(done =~= lines(s@));
    }
    r
}

// ---------------------------------------------------------------------
// Fields and tokens
// ---------------------------------------------------------------------

/// The comma-separated fields of the text before `hi`, from the field
/// that starts at `start`, scanning from `j`.
pub open spec fn commas_scan(s: Seq<u8>, hi: int, start: int, j: int) -> Seq<(int, int)>
    decreases hi - j,
{
    if j >= hi {
        seq![(start, hi)]
    } else if s[j] == 0x2c {
        seq![(start, j)] + commas_scan(s, hi, j + 1, j + 1)
    } else {
        commas_scan(s, hi, start, j + 1)
    }
}

/// The fields of the span `lo..hi` separated by commas (as
/// `str::split(',')`: there is always at least one field).
pub open spec fn fields(s: Seq<u8>, lo: int, hi: int) -> Seq<(int, int)> {
    commas_scan(s, hi, lo, lo)
}

/// Splits the span `lo..hi` at commas.
pub fn split_commas(s: &[u8], lo: usize, hi: usize) -> (r: Vec<(usize, usize)>)
    requires
        lo <= hi <= s@.len(),
    ensures
        r@.len() == fields(s@, lo as int, hi as int).len(),
        forall|k: int|
            0 <= k < r@.len() ==> (#[trigger] r@[k]).0 == fields(s@, lo as int, hi as int)[k].0
                && r@[k].1 == fields(s@, lo as int, hi as int)[k].1,
        forall|k: int| 0 <= k < r@.len() ==> lo <= (#[trigger] r@[k]).0 <= r@[k].1 <= hi,
{
    let mut r: Vec<(usize, usize)> = Vec::new();
    let mut start = lo;
    let mut j = lo;
    let ghost done: Seq<(int, int)> = seq![];
    while j < hi
        invariant
            lo <= start <= j <= hi <= s@.len(),
            done + commas_scan(s@, hi as int, start as int, j as int) == fields(s@, lo as int, hi as int),
            r@.len() == done.len(),
            forall|k: int|
                0 <= k < r@.len() ==> (#[trigger] r@[k]).0 == done[k].0 && r@[k].1 == done[k].1,
            forall|k: int| 0 <= k < r@.len() ==> lo <= (#[trigger] r@[k]).0 <= r@[k].1 <= hi,
        decreases hi - j,
    {
        if s[j] == 0x2c {
            r.push((start, j));
            proof {
                let piece = seq![(start as int, j as int)];
                assert((done + piece) + commas_scan(s@, hi as int, j + 1, j + 1) =~= done
                    + commas_scan(s@, hi as int, start as int, j as int));
                done = done + piece;
            }
            start = j + 1;
        }
        j = j + 1;
    }
    r.push((start, hi));
    proof {
        done = done + seq![(start as int, hi as int)];
        assert(done =~= fields(s@, lo as int, hi as int));
    }
    r
}

/// Whitespace-separated tokens of the text before `hi`, scanning from
/// `j`; `in_token` tells whether a token started at `start`.
pub open spec fn tokens_scan(s: Seq<u8>, hi: int, start: int, j: int, in_token: bool) -> Seq<
    (int, int),
>
    decreases hi - j,
{
    if j >= hi {
        if in_token {
            seq![(start, hi)]
        } else {
            seq![]
        }
    } else if ws_len(s, j, hi) > 0 {
        let next = j + ws_len(s, j, hi);
        (if in_token {
            seq![(start, j)]
        } else {
            seq![]
        }) + tokens_scan(s, hi, next, next, false)
    } else {
        tokens_scan(
            s,
            hi,
            if in_token {
                start
            } else {
                j
            },
            j + 1,
            true,
        )
    }
}

/// The whitespace-separated tokens of the span `lo..hi` (as
/// `str::split_whitespace`).
pub open spec fn tokens(s: Seq<u8>, lo: int, hi: int) -> Seq<(int, int)> {
    tokens_scan(s, hi, lo, lo, false)
}

/// Splits the span `lo..hi` into whitespace-separated tokens.
pub fn split_tokens(s: &[u8], lo: usize, hi: usize) -> (r: Vec<(usize, usize)>)
    requires
        lo <= hi <= s@.len(),
    ensures
        r@.len() == tokens(s@, lo as int, hi as int).len(),
        forall|k: int|
            0 <= k < r@.len() ==> (#[trigger] r@[k]).0 == tokens(s@, lo as int, hi as int)[k].0
                && r@[k].1 == tokens(s@, lo as int, hi as int)[k].1,
        forall|k: int| 0 <= k < r@.len() ==> lo <= (#[trigger] r@[k]).0 <= r@[k].1 <= hi,
{
    let mut r: Vec<(usize, usize)> = Vec::new();
    let mut start = lo;
    let mut j = lo;
    let mut in_token = false;
    let ghost done: Seq<(int, int)> = seq![];
    while j < hi
        invariant
            lo <= start <= j <= hi <= s@.len(),
            done + tokens_scan(s@, hi as int, start as int, j as int, in_token) == tokens(
                s@,
                lo as int,
                hi as int,
            ),
            r@.len() == done.len(),
            forall|k: int|
                0 <= k < r@.len() ==> (#[trigger] r@[k]).0 == done[k].0 && r@[k].1 == done[k].1,
            forall|k: int| 0 <= k < r@.len() ==> lo <= (#[trigger] r@[k]).0 <= r@[k].1 <= hi,
        decreases hi - j,
    {
        let w = whitespace_len(s, j, hi);
        if w > 0 {
            let next = j + w;
            if in_token {
                r.push((start, j));
                proof {
                    let piece = seq![(start as int, j as int)];
                    assert((done + piece) + tokens_scan(s@, hi as int, next as int, next as int, false)
                        =~= done + tokens_scan(s@, hi as int, start as int, j as int, in_token));
                    done = done + piece;
                }
            } else {
                proof {
                    assert(done + tokens_scan(s@, hi as int, next as int, next as int, false) =~= done
                        + tokens_scan(s@, hi as int, start as int, j as int, in_token));
                }
            }
            in_token = false;
            start = next;
            j = next;
        } else {
            if !in_token {
                start = j;
            }
            in_token = true;
            j = j + 1;
        }
    }
    if in_token {
        r.push((start, hi));
        proof {
            done = done + seq![(start as int, hi as int)];
        }
    }
    proof {
        assert(done =~= tokens(s@, lo as int, hi as int));
    }
    r
}

/// The values joined by single spaces.
pub open spec fn joined(values: Seq<Seq<u8>>) -> Seq<u8>
    decreases values.len(),
{
    if values.len() == 0 {
        seq![]
    } else if values.len() == 1 {
        values[0]
    } else {
        joined(values.drop_last()) + seq![0x20u8] + values.last()
    }
}

proof fn lemma_joined_front(ts: Seq<Seq<u8>>)
    requires
        ts.len() >= 2,
    ensures
        joined(ts) == ts[0] + seq![0x20u8] + joined(ts.drop_first()),
    decreases ts.len(),
{
    if ts.len() > 2 {
        lemma_joined_front(ts.drop_last());
        let d = ts.drop_first();
        assert(ts.drop_last().drop_first() =~= d.drop_last());
        assert(d.last() == ts.last());
        assert(ts.drop_last()[0] == ts[0]);
        assert(joined(d) == joined(d.drop_last()) + seq![0x20u8] + d.last());
        assert(joined(ts) == joined(ts.drop_last()) + seq![0x20u8] + ts.last());
        assert(joined(ts) =~= ts[0] + seq![0x20u8] + joined(d));
    } else {
        let d = ts.drop_first();
        assert(d.len() == 1);
        assert(ts.drop_last().len() == 1);
        assert(joined(d) == d[0]);
        assert(joined(ts.drop_last()) == ts[0]);
        assert(joined(ts) =~= ts[0] + seq![0x20u8] + joined(d));
    }
}

proof fn lemma_scan_inside_word(s: Seq<u8>, hi: int, p: int, j: int, e: int)
    requires
        0 <= p < j <= e <= hi <= s.len(),
        forall|k: int| p <= k < e ==> plain_byte(#[trigger] s[k]),
    ensures
        tokens_scan(s, hi, p, j, true) == tokens_scan(s, hi, p, e, true),
    decreases e - j,
{
    if j < e {
        assert(plain_byte(s[j]));
        assert(ws_len(s, j, hi) == 0);
        lemma_scan_inside_word(s, hi, p, j + 1, e);
    }
}

/// Splitting on whitespace the words joined by single spaces gives the
/// words back.
pub proof fn lemma_tokens_of_words(s: Seq<u8>, p: int, hi: int, ts: Seq<Seq<u8>>)
    requires
        0 <= p <= hi <= s.len(),
        s.subrange(p, hi) == joined(ts),
        forall|i: int| 0 <= i < ts.len() ==> plain_word(#[trigger] ts[i]),
    ensures
        tokens_scan(s, hi, p, p, false).len() == ts.len(),
        forall|i: int|
            0 <= i < ts.len() ==> p <= (#[trigger] tokens_scan(s, hi, p, p, false)[i]).0
                <= tokens_scan(s, hi, p, p, false)[i].1 <= hi && s.subrange(
                tokens_scan(s, hi, p, p, false)[i].0,
                tokens_scan(s, hi, p, p, false)[i].1,
            ) == ts[i],
    decreases ts.len(),
{
    let r = tokens_scan(s, hi, p, p, false);
    if ts.len() == 0 {
        assert(joined(ts).len() == 0);
        assert(p == hi);
    } else {
        let w = ts[0];
        let e = p + w.len();
        let rest = if ts.len() >= 2 {
            lemma_joined_front(ts);
            joined(ts.drop_first())
        } else {
            seq![]
        };
        assert(joined(ts) == if ts.len() >= 2 {
            w + seq![0x20u8] + rest
        } else {
            w
        });
        assert(plain_word(w));
        assert forall|k: int| p <= k < e implies plain_byte(#[trigger] s[k]) by {
            assert(s.subrange(p, hi)[k - p] == s[k]);
            assert(joined(ts)[k - p] == w[k - p]);
        }
        assert(s.subrange(p, e) =~= w) by {
            assert forall|k: int| 0 <= k < w.len() implies s.subrange(p, e)[k] == w[k] by {
                assert(s.subrange(p, hi)[k] == joined(ts)[k]);
            }
        }
        assert(ws_len(s, p, hi) == 0);
        lemma_scan_inside_word(s, hi, p, p + 1, e);
        assert(r == tokens_scan(s, hi, p, e, true));
        if ts.len() == 1 {
            assert(e == hi);
            assert(r =~= seq![(p, hi)]);
        } else {
            assert(s[e] == 0x20) by {
                assert(s.subrange(p, hi)[e - p] == joined(ts)[e - p]);
            }
            assert(ws_len(s, e, hi) == 1);
            let tail = tokens_scan(s, hi, e + 1, e + 1, false);
            assert(r == seq![(p, e)] + tail);
            assert(s.subrange(e + 1, hi) =~= rest) by {
                assert forall|k: int| 0 <= k < rest.len() implies s.subrange(e + 1, hi)[k] == rest[k] by {
                    assert(s.subrange(p, hi)[e + 1 - p + k] == joined(ts)[e + 1 - p + k]);
                }
            }
            lemma_tokens_of_words(s, e + 1, hi, ts.drop_first());
            assert forall|i: int| 0 <= i < ts.len() implies p <= (#[trigger] r[i]).0 <= r[i].1 <= hi
                && s.subrange(r[i].0, r[i].1) == ts[i] by {
                if i > 0 {
                    assert(r[i] == tail[i - 1]);
                    assert(ts.drop_first()[i - 1] == ts[i]);
                }
            }
        }
    }
}

/// The lines `cs`, each followed by a newline.
pub open spec fn line_block(cs: Seq<Seq<u8>>) -> Seq<u8>
    decreases cs.len(),
{
    if cs.len() == 0 {
        seq![]
    } else {
        cs[0] + seq![0x0au8] + line_block(cs.drop_first())
    }
}

/// A line that splitting into lines keeps whole: no newline in it, and
/// no carriage return at its end.
pub open spec fn clean_line(c: Seq<u8>) -> bool {
    &&& forall|i: int| 0 <= i < c.len() ==> #[trigger] c[i] != 0x0a
    &&& c.len() == 0 || c.last() != 0x0d
}

proof fn lemma_scan_inside_line(s: Seq<u8>, a: int, j: int, b: int)
    requires
        0 <= a <= j <= b < s.len(),
        forall|k: int| a <= k < b ==> #[trigger] s[k] != 0x0a,
    ensures
        lines_scan(s, a, j) == lines_scan(s, a, b),
    decreases b - j,
{
    if j < b {
        lemma_scan_inside_line(s, a, j + 1, b);
    }
}

/// Lines of two blocks, one after the other, make one block.
pub proof fn lemma_line_block_concat(a: Seq<Seq<u8>>, b: Seq<Seq<u8>>)
    ensures
        line_block(a + b) == line_block(a) + line_block(b),
    decreases a.len(),
{
    if a.len() == 0 {
        assert(a + b =~= b);
    } else {
        lemma_line_block_concat(a.drop_first(), b);
        assert((a + b).drop_first() =~= a.drop_first() + b);
        assert((a + b)[0] == a[0]);
        assert(line_block(a + b) =~= line_block(a) + line_block(b));
    }
}

proof fn lemma_skip_spaces(s: Seq<u8>, hi: int, j: int, p: int)
    requires
        0 <= j <= p <= hi <= s.len(),
        forall|k: int| j <= k < p ==> #[trigger] s[k] == 0x20,
    ensures
        tokens_scan(s, hi, j, j, false) == tokens_scan(s, hi, p, p, false),
    decreases p - j,
{
    if j < p {
        assert(ws_len(s, j, hi) == 1);
        lemma_skip_spaces(s, hi, j + 1, p);
        assert(tokens_scan(s, hi, j, j, false) =~= tokens_scan(s, hi, j + 1, j + 1, false));
    }
}

/// Spaces followed by one word of plain bytes split into that word.
pub proof fn lemma_padded_word_tokens(s: Seq<u8>, lo: int, p: int, hi: int)
    requires
        0 <= lo <= p < hi <= s.len(),
        forall|k: int| lo <= k < p ==> #[trigger] s[k] == 0x20,
        forall|k: int| p <= k < hi ==> plain_byte(#[trigger] s[k]),
    ensures
        tokens(s, lo, hi) == seq![(p, hi)],
{
    lemma_skip_spaces(s, hi, lo, p);
    assert(plain_byte(s[p]));
    assert(ws_len(s, p, hi) == 0);
    assert(tokens_scan(s, hi, p, p, false) == tokens_scan(s, hi, p, p + 1, true));
    lemma_scan_inside_word(s, hi, p, p + 1, hi);
    assert(tokens_scan(s, hi, p, hi, true) =~= seq![(p, hi)]);
}

/// Splitting a block of clean lines into lines gives the lines back.
pub proof fn lemma_lines_of_block(s: Seq<u8>, a: int, cs: Seq<Seq<u8>>)
    requires
        0 <= a <= s.len(),
        s.subrange(a, s.len() as int) == line_block(cs),
        forall|i: int| 0 <= i < cs.len() ==> clean_line(#[trigger] cs[i]),
    ensures
        lines_scan(s, a, a).len() == cs.len(),
        forall|i: int|
            0 <= i < cs.len() ==> a <= (#[trigger] lines_scan(s, a, a)[i]).0 <= lines_scan(s, a, a)[i].1
                <= s.len() && s.subrange(lines_scan(s, a, a)[i].0, lines_scan(s, a, a)[i].1) == cs[i],
    decreases cs.len(),
{
    let r = lines_scan(s, a, a);
    if cs.len() == 0 {
        assert(a == s.len());
    } else {
        let c = cs[0];
        let b = a + c.len();
        let rest = line_block(cs.drop_first());
        assert(line_block(cs) == c + seq![0x0au8] + rest);
        assert(clean_line(c));
        assert forall|k: int| a <= k < b implies #[trigger] s[k] != 0x0a by {
            assert(s.subrange(a, s.len() as int)[k - a] == s[k]);
            assert(line_block(cs)[k - a] == c[k - a]);
        }
        assert(s[b] == 0x0a) by {
            assert(s.subrange(a, s.len() as int)[b - a] == s[b]);
        }
        assert(s.subrange(a, b) =~= c) by {
            assert forall|k: int| 0 <= k < c.len() implies s.subrange(a, b)[k] == c[k] by {
                assert(s.subrange(a, s.len() as int)[k] == line_block(cs)[k]);
            }
        }
        lemma_scan_inside_line(s, a, a, b);
        assert(line_end(s, a, b) == b) by {
            if b > a {
                assert(s[b - 1] == c[c.len() - 1]);
            }
        }
        let tail = lines_scan(s, b + 1, b + 1);
        assert(r == seq![(a, b)] + tail);
        assert(s.subrange(b + 1, s.len() as int) =~= rest) by {
            assert forall|k: int| 0 <= k < rest.len() implies s.subrange(b + 1, s.len() as int)[k] == rest[k] by {
                assert(s.subrange(a, s.len() as int)[b + 1 - a + k] == line_block(cs)[b + 1 - a + k]);
            }
        }
        lemma_lines_of_block(s, b + 1, cs.drop_first());
        assert forall|i: int| 0 <= i < cs.len() implies a <= (#[trigger] r[i]).0 <= r[i].1 <= s.len()
            && s.subrange(r[i].0, r[i].1) == cs[i] by {
            if i > 0 {
                assert(r[i] == tail[i - 1]);
                assert(cs.drop_first()[i - 1] == cs[i]);
            }
        }
    }
}

// ---------------------------------------------------------------------
// Decimal numbers
// ---------------------------------------------------------------------

/// Value of the decimal digits in `lo..hi`.
pub open spec fn digits_value(s: Seq<u8>, lo: int, hi: int) -> nat
    decreases hi - lo,
{
    if hi <= lo {
        0
    } else {
        digits_value(s, lo, hi - 1) * 10 + (s[hi - 1] - 0x30) as nat
    }
}

/// Every byte of `lo..hi` is an ASCII digit.
pub open spec fn all_digits(s: Seq<u8>, lo: int, hi: int) -> bool {
    forall|k: int| lo <= k < hi ==> 0x30 <= #[trigger] s[k] <= 0x39
}

/// Where the digits of an unsigned number in `lo..hi` start: after an
/// optional leading `+`.
pub open spec fn digits_start(s: Seq<u8>, lo: int, hi: int) -> int {
    if lo < hi && s[lo] == 0x2b {
        lo + 1
    } else {
        lo
    }
}

/// The span `lo..hi` is a `usize` as `str::parse::<usize>` accepts it:
/// an optional `+`, then at least one digit, with a value that fits.
pub open spec fn is_usize_text(s: Seq<u8>, lo: int, hi: int) -> bool {
    let d = digits_start(s, lo, hi);
    &&& d < hi
    &&& all_digits(s, d, hi)
    &&& digits_value(s, d, hi) <= usize::MAX
}

/// The value of the `usize` written in `lo..hi`.
pub open spec fn usize_text_value(s: Seq<u8>, lo: int, hi: int) -> nat {
    digits_value(s, digits_start(s, lo, hi), hi)
}

proof fn lemma_digits_value_grows(s: Seq<u8>, lo: int, k: int, hi: int)
    requires
        lo <= k <= hi,
        all_digits(s, lo, hi),
    ensures
        digits_value(s, lo, k) <= digits_value(s, lo, hi),
    decreases hi - k,
{
    if k < hi {
        lemma_digits_value_grows(s, lo, k, hi - 1);
    }
}

/// Reads the `usize` written in `lo..hi`, or `None` when the span is
/// not one (as `str::parse::<usize>`).
pub fn parse_usize(s: &[u8], lo: usize, hi: usize) -> (r: Option<usize>)
    requires
        lo <= hi <= s@.len(),
    ensures
        r is Some <==> is_usize_text(s@, lo as int, hi as int),
        r matches Some(v) ==> v == usize_text_value(s@, lo as int, hi as int),
{
    let d = if lo < hi && s[lo] == 0x2b {
        lo + 1
    } else {
        lo
    };
    if d >= hi {
        return None;
    }
    let mut k = d;
    let mut v: usize = 0;
    while k < hi
        invariant
            d <= k <= hi <= s@.len(),
            d == digits_start(s@, lo as int, hi as int),
            all_digits(s@, d as int, k as int),
            v == digits_value(s@, d as int, k as int),
        decreases hi - k,
    {
        let b = s[k];
        if b < 0x30 || b > 0x39 {
            return None;
        }
        let digit = (b - 0x30) as usize;
        let next = match v.checked_mul(10) {
            Some(t) => t.checked_add(digit),
            None => None,
        };
        match next {
            Some(t) => {
                v = t;
            },
            None => {
                proof {
                    if all_digits(s@, d as int, hi as int) {
                        lemma_digits_value_grows(s@, d as int, k + 1, hi as int);
                    }
                }
                return None;
            },
        }
        k = k + 1;
    }
    Some(v)
}

/// Decimal digits of `v`, without leading zeros.
pub open spec fn decimal(v: nat) -> Seq<u8>
    decreases v,
{
    if v < 10 {
        seq![(0x30 + v) as u8]
    } else {
        decimal(v / 10).push((0x30 + v % 10) as u8)
    }
}

/// A byte of printable ASCII other than the space.
pub open spec fn plain_byte(b: u8) -> bool {
    0x21 <= b <= 0x7e
}

/// A non-empty run of printable ASCII without spaces: a word that
/// splitting on whitespace keeps whole.
pub open spec fn plain_word(t: Seq<u8>) -> bool {
    &&& t.len() > 0
    &&& forall|i: int| 0 <= i < t.len() ==> plain_byte(#[trigger] t[i])
}

proof fn lemma_digits_value_shift(s: Seq<u8>, t: Seq<u8>, lo: int, hi: int, off: int)
    requires
        lo <= hi,
        0 <= lo,
        0 <= lo + off,
        hi <= s.len(),
        hi + off <= t.len(),
        forall|k: int| lo <= k < hi ==> #[trigger] s[k] == t[k + off],
    ensures
        digits_value(s, lo, hi) == digits_value(t, lo + off, hi + off),
    decreases hi - lo,
{
    if hi > lo {
        lemma_digits_value_shift(s, t, lo, hi - 1, off);
        assert(s[hi - 1] == t[hi - 1 + off]);
    }
}

proof fn lemma_decimal_digits(v: nat)
    ensures
        decimal(v).len() >= 1,
        forall|i: int| 0 <= i < decimal(v).len() ==> 0x30 <= #[trigger] decimal(v)[i] <= 0x39,
        digits_value(decimal(v), 0, decimal(v).len() as int) == v,
    decreases v,
{
    if v >= 10 {
        lemma_decimal_digits(v / 10);
        let x = decimal(v / 10);
        let d = (0x30 + v % 10) as u8;
        let y = x.push(d);
        assert(decimal(v) == y);
        lemma_digits_value_shift(y, x, 0, x.len() as int, 0);
        assert(digits_value(y, 0, y.len() as int) == digits_value(y, 0, x.len() as int) * 10 + (y[x.len() as int] - 0x30) as nat);
        assert(y[x.len() as int] == d);
        assert((v / 10) * 10 + v % 10 == v);
        assert(forall|i: int| 0 <= i < y.len() ==> 0x30 <= #[trigger] y[i] <= 0x39) by {
            assert forall|i: int| 0 <= i < y.len() implies 0x30 <= #[trigger] y[i] <= 0x39 by {
                if i < x.len() {
                    assert(y[i] == x[i]);
                }
            }
        }
    } else {
        let y = decimal(v);
        assert(digits_value(y, 0, 1) == digits_value(y, 0, 0) * 10 + (y[0] - 0x30) as nat);
    }
}

/// Decimal digits are plain words.
pub proof fn lemma_decimal_plain(v: nat)
    ensures
        plain_word(decimal(v)),
{
    lemma_decimal_digits(v);
    assert forall|i: int| 0 <= i < decimal(v).len() implies plain_byte(#[trigger] decimal(v)[i]) by {
        assert(0x30 <= decimal(v)[i] <= 0x39);
    }
}

/// Text written by `push_decimal` reads back as the same number.
pub proof fn lemma_decimal_reads_back(s: Seq<u8>, lo: int, hi: int, v: usize)
    requires
        0 <= lo <= hi <= s.len(),
        s.subrange(lo, hi) == decimal(v as nat),
    ensures
        is_usize_text(s, lo, hi),
        usize_text_value(s, lo, hi) == v,
{
    let d = decimal(v as nat);
    lemma_decimal_digits(v as nat);
    assert(s[lo] == d[0]);
    assert(digits_start(s, lo, hi) == lo);
    assert forall|k: int| lo <= k < hi implies 0x30 <= #[trigger] s[k] <= 0x39 by {
        assert(s[k] == d[k - lo]);
    }
    assert forall|k: int| lo <= k < hi implies #[trigger] s[k] == d[k + (-lo)] by {
        assert(s.subrange(lo, hi)[k - lo] == s[k]);
    }
    lemma_digits_value_shift(s, d, lo, hi, -lo);
}

/// Appends the decimal digits of `v` to `out`.
pub fn push_decimal(out: &mut Vec<u8>, v: usize)
    ensures
        final(out)@ == old(out)@ + decimal(v as nat),
    decreases v,
{
    if v >= 10 {
        push_decimal(out, v / 10);
    }
    let digit = (v % 10) as u8;
    out.push(0x30 + digit);
    proof {
        if v >= 10 {
            assert(old(out)@ + decimal(v as nat) =~= (old(out)@ + decimal((v / 10) as nat)).push(
                (0x30 + v % 10) as u8,
            ));
        }
    }
}

/// The text values of exec byte vectors.
pub open spec fn texts(values: Seq<Vec<u8>>) -> Seq<Seq<u8>> {
    Seq::new(values.len(), |k: int| values[k]@)
}

/// Appends `bytes` to `out`.
pub fn push_all(out: &mut Vec<u8>, bytes: &Vec<u8>)
    ensures
        final(out)@ == old(out)@ + bytes@,
{
    let mut k: usize = 0;
    while k < bytes.len()
        invariant
            k <= bytes@.len(),
            out@ == old(out)@ + bytes@.subrange(0, k as int),
        decreases bytes@.len() - k,
    {
        out.push(bytes[k]);
        proof {
            assert(bytes@.subrange(0, k + 1) =~= bytes@.subrange(0, k as int).push(bytes@[k as int]));
        }
        k = k + 1;
    }
    proof {
        assert(bytes@.subrange(0, bytes@.len() as int) =~= bytes@);
    }
}

/// `n` spaces.
pub open spec fn spaces(n: nat) -> Seq<u8> {
    Seq::new(n, |i: int| 0x20u8)
}

/// `t`, which shows as `shown` characters, right-aligned in a field of
/// `width` characters.
pub open spec fn left_pad(t: Seq<u8>, shown: nat, width: nat) -> Seq<u8> {
    if shown >= width {
        t
    } else {
        spaces((width - shown) as nat) + t
    }
}

/// A number right-aligned in a field of `width` characters.
pub open spec fn number_field(v: nat, width: nat) -> Seq<u8> {
    left_pad(decimal(v), decimal(v).len(), width)
}

/// Appends `n` spaces.
pub fn push_spaces(out: &mut Vec<u8>, n: usize)
    ensures
        final(out)@ == old(out)@ + spaces(n as nat),
{
    let mut k: usize = 0;
    while k < n
        invariant
            k <= n,
            out@ == old(out)@ + spaces(k as nat),
        decreases n - k,
    {
        out.push(0x20);
        proof {
            assert(old(out)@ + spaces((k + 1) as nat) =~= (old(out)@ + spaces(k as nat)).push(0x20));
        }
        k = k + 1;
    }
}

/// Appends `t` right-aligned in `width` characters, `t` showing as
/// `shown` characters.
pub fn push_padded(out: &mut Vec<u8>, t: &Vec<u8>, shown: usize, width: usize)
    ensures
        final(out)@ == old(out)@ + left_pad(t@, shown as nat, width as nat),
{
    if shown < width {
        push_spaces(out, width - shown);
    }
    push_all(out, t);
    proof {
        if shown < width {
            assert(old(out)@ + spaces((width - shown) as nat) + t@ =~= old(out)@ + left_pad(
                t@,
                shown as nat,
                width as nat,
            ));
        }
    }
}

/// Appends `v` right-aligned in `width` characters.
pub fn push_number_field(out: &mut Vec<u8>, v: usize, width: usize)
    ensures
        final(out)@ == old(out)@ + number_field(v as nat, width as nat),
{
    let mut digits: Vec<u8> = Vec::new();
    push_decimal(&mut digits, v);
    assert(digits@ =~= decimal(v as nat));
    let shown = digits.len();
    push_padded(out, &digits, shown, width);
}

} // verus!
