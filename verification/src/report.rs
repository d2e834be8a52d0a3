//! The confusion matrix as an aligned text table: a title line, a
//! header of predicted-class numbers, then one line per actual class
//! with its name (cut to 13 characters) and its counts, the correct
//! count marked with `*`.

use vstd::prelude::*;
use crate::metrics::{cell, lemma_row_cell_bound, ConfusionMatrix};
use crate::text::{spaces, left_pad, number_field, push_spaces, push_padded, push_number_field, texts};
use crate::text::{decimal, lines, tokens, is_usize_text, usize_text_value, plain_byte, line_block, clean_line};
use crate::text::{lemma_line_block_concat, lemma_lines_of_block, lemma_padded_word_tokens};
use crate::text::{lemma_decimal_plain, lemma_decimal_reads_back};

verus! {

/// A byte that begins a UTF-8 character (any byte but a continuation
/// byte).
pub open spec fn char_start(b: u8) -> bool {
    b < 0x80 || b >= 0xc0
}

/// Number of characters of UTF-8 text.
pub open spec fn char_count(t: Seq<u8>) -> nat
    decreases t.len(),
{
    if t.len() == 0 {
        0
    } else {
        char_count(t.drop_last()) + if char_start(t.last()) {
            1nat
        } else {
            0nat
        }
    }
}

/// Where the text from `i` on ends once `k` more characters have been
/// taken: at the start of the character after them, or at the end.
pub open spec fn chars_end(t: Seq<u8>, k: nat, i: int) -> int
    decreases t.len() - i,
{
    if i >= t.len() {
        t.len() as int
    } else if char_start(t[i]) {
        if k == 0 {
            i
        } else {
            chars_end(t, (k - 1) as nat, i + 1)
        }
    } else {
        chars_end(t, k, i + 1)
    }
}

proof fn lemma_chars_end_bounds(t: Seq<u8>, k: nat, i: int)
    requires
        0 <= i <= t.len(),
    ensures
        i <= chars_end(t, k, i) <= t.len(),
    decreases t.len() - i,
{
    if i < t.len() {
        if char_start(t[i]) {
            if k > 0 {
                lemma_chars_end_bounds(t, (k - 1) as nat, i + 1);
            }
        } else {
            lemma_chars_end_bounds(t, k, i + 1);
        }
    }
}

proof fn lemma_char_count_step(t: Seq<u8>, i: int)
    requires
        0 <= i < t.len(),
    ensures
        char_count(t.subrange(0, i + 1)) == char_count(t.subrange(0, i)) + if char_start(t[i]) {
            1nat
        } else {
            0nat
        },
{
    assert(t.subrange(0, i + 1).drop_last() =~= t.subrange(0, i));
}

proof fn lemma_char_count_grows(t: Seq<u8>, a: int, b: int)
    requires
        0 <= a <= b <= t.len(),
    ensures
        char_count(t.subrange(0, a)) <= char_count(t.subrange(0, b)),
    decreases b - a,
{
    if a < b {
        lemma_char_count_grows(t, a, b - 1);
        lemma_char_count_step(t, b - 1);
    }
}

proof fn lemma_chars_end_counts(t: Seq<u8>, m: nat, i: int)
    requires
        0 <= i <= t.len(),
    ensures
        ({
            let e = chars_end(t, m, i);
            let before = char_count(t.subrange(0, i));
            let all = char_count(t.subrange(0, t.len() as int));
            &&& char_count(t.subrange(0, e)) == before + if all - before < m {
                (all - before) as nat
            } else {
                m
            }
            &&& (e < t.len() ==> char_start(t[e]))
        }),
    decreases t.len() - i,
{
    lemma_chars_end_bounds(t, m, i);
    lemma_char_count_grows(t, i, t.len() as int);
    if i < t.len() {
        lemma_char_count_step(t, i);
        lemma_char_count_grows(t, i + 1, t.len() as int);
        if char_start(t[i]) {
            if m > 0 {
                lemma_chars_end_counts(t, (m - 1) as nat, i + 1);
            }
        } else {
            lemma_chars_end_counts(t, m, i + 1);
        }
    }
}

/// The first `k` characters of `t` are a prefix of `t` holding `k`
/// characters (all of them when `t` has fewer) and ending where a
/// character starts, so no character is cut in two.
pub proof fn lemma_take_chars(t: Seq<u8>, k: nat)
    ensures
        take_chars(t, k).len() <= t.len(),
        take_chars(t, k) == t.subrange(0, take_chars(t, k).len() as int),
        char_count(take_chars(t, k)) == if char_count(t) < k {
            char_count(t)
        } else {
            k
        },
        take_chars(t, k).len() < t.len() ==> char_start(t[take_chars(t, k).len() as int]),
{
    lemma_chars_end_bounds(t, k, 0);
    lemma_chars_end_counts(t, k, 0);
    assert(t.subrange(0, 0) =~= Seq::<u8>::empty());
    assert(t.subrange(0, t.len() as int) =~= t);
    let e = chars_end(t, k, 0);
    assert(take_chars(t, k).len() == e);
}

/// The first `k` characters of `t`.
pub open spec fn take_chars(t: Seq<u8>, k: nat) -> Seq<u8> {
    t.subrange(0, chars_end(t, k, 0))
}

/// `?`, the label of a class without a name.
pub open spec fn unknown_name() -> Seq<u8> {
    seq![0x3fu8]
}

/// The label of row `i`: its class name, or `?` past the end of the
/// names, cut to 13 characters.
pub open spec fn short_name(names: Seq<Seq<u8>>, i: int) -> Seq<u8> {
    take_chars(
        if i < names.len() {
            names[i]
        } else {
            unknown_name()
        },
        13,
    )
}

/// The first line of the table.
pub open spec fn title_text() -> Seq<u8> {
    seq![
        0x0au8, 0x43, 0x6f, 0x6e, 0x66, 0x75, 0x73, 0x69, 0x6f, 0x6e, 0x20, 0x4d, 0x61, 0x74,
        0x72, 0x69, 0x78, 0x20, 0x28, 0x72, 0x6f, 0x77, 0x73, 0x3d, 0x61, 0x63, 0x74, 0x75, 0x61,
        0x6c, 0x2c, 0x20, 0x63, 0x6f, 0x6c, 0x73, 0x3d, 0x70, 0x72, 0x65, 0x64, 0x69, 0x63, 0x74,
        0x65, 0x64, 0x29, 0x3a, 0x0a,
    ]
}

/// The column numbers `0..j`, six characters each.
pub open spec fn header_cells(j: int) -> Seq<u8>
    decreases j,
{
    if j <= 0 {
        seq![]
    } else {
        header_cells(j - 1) + number_field((j - 1) as nat, 6)
    }
}

/// The count of cell (i, j): six characters, or five and a `*` on the
/// diagonal.
pub open spec fn count_field(counts: Seq<usize>, n: int, i: int, j: int) -> Seq<u8> {
    let c = counts[cell(i, j, n)] as nat;
    if i == j {
        number_field(c, 5) + seq![0x2au8]
    } else {
        number_field(c, 6)
    }
}

/// The counts of row `i` in columns `0..j`.
pub open spec fn row_cells(counts: Seq<usize>, n: int, i: int, j: int) -> Seq<u8>
    decreases j,
{
    if j <= 0 {
        seq![]
    } else {
        row_cells(counts, n, i, j - 1) + count_field(counts, n, i, j - 1)
    }
}

/// The line of actual class `i`.
pub open spec fn row_line(counts: Seq<usize>, names: Seq<Seq<u8>>, n: int, i: int) -> Seq<u8> {
    let label = short_name(names, i);
    left_pad(label, char_count(label), 14) + row_cells(counts, n, i, n) + seq![0x0au8]
}

/// The lines of actual classes `0..i`.
pub open spec fn table_rows(counts: Seq<usize>, names: Seq<Seq<u8>>, n: int, i: int) -> Seq<u8>
    decreases i,
{
    if i <= 0 {
        seq![]
    } else {
        table_rows(counts, names, n, i - 1) + row_line(counts, names, n, i - 1)
    }
}

/// The whole table for an `n`-class matrix with row-major `counts`,
/// followed by an empty line.
pub open spec fn confusion_text(counts: Seq<usize>, names: Seq<Seq<u8>>, n: int) -> Seq<u8> {
    title_text() + spaces(14) + header_cells(n) + seq![0x0au8] + table_rows(counts, names, n, n)
        + seq![0x0au8]
}

fn title_bytes() -> (v: Vec<u8>)
    ensures
        v@ == title_text(),
{
    let v = vec![
        0x0au8, 0x43, 0x6f, 0x6e, 0x66, 0x75, 0x73, 0x69, 0x6f, 0x6e, 0x20, 0x4d, 0x61, 0x74,
        0x72, 0x69, 0x78, 0x20, 0x28, 0x72, 0x6f, 0x77, 0x73, 0x3d, 0x61, 0x63, 0x74, 0x75, 0x61,
        0x6c, 0x2c, 0x20, 0x63, 0x6f, 0x6c, 0x73, 0x3d, 0x70, 0x72, 0x65, 0x64, 0x69, 0x63, 0x74,
        0x65, 0x64, 0x29, 0x3a, 0x0a,
    ];
    assert(v@ =~= title_text());
    v
}

fn is_char_start(b: u8) -> (r: bool)
    ensures
        r == char_start(b),
{
    b < 0x80 || b >= 0xc0
}

/// The number of characters of `t`.
pub fn count_chars(t: &Vec<u8>) -> (c: usize)
    ensures
        c == char_count(t@),
{
    let mut c: usize = 0;
    let mut i: usize = 0;
    while i < t.len()
        invariant
            i <= t@.len(),
            c <= i,
            c == char_count(t@.subrange(0, i as int)),
        decreases t@.len() - i,
    {
        proof {
            assert(t@.subrange(0, i + 1).drop_last() =~= t@.subrange(0, i as int));
        }
        if is_char_start(t[i]) {
            c = c + 1;
        }
        i = i + 1;
    }
    proof {
        assert(t@.subrange(0, t@.len() as int) =~= t@);
    }
    c
}

/// The first `k` characters of `t`.
pub fn first_chars(t: &Vec<u8>, k: usize) -> (r: Vec<u8>)
    ensures
        r@ == take_chars(t@, k as nat),
{
    let mut i: usize = 0;
    let mut left: usize = k;
    while i < t.len() && !(left == 0 && is_char_start(t[i]))
        invariant
            i <= t@.len(),
            chars_end(t@, k as nat, 0) == chars_end(t@, left as nat, i as int),
        decreases t@.len() - i,
    {
        if is_char_start(t[i]) {
            left = left - 1;
        }
        i = i + 1;
    }
    let mut r: Vec<u8> = Vec::new();
    let mut j: usize = 0;
    while j < i
        invariant
            j <= i <= t@.len(),
            r@ == t@.subrange(0, j as int),
        decreases i - j,
    {
        r.push(t[j]);
        proof {
            assert(t@.subrange(0, j + 1) =~= t@.subrange(0, j as int).push(t@[j as int]));
        }
        j = j + 1;
    }
    r
}

impl ConfusionMatrix {
    /// The matrix as a text table (rows = actual class, columns =
    /// predicted class), labelled with `class_names`.
    pub fn table_text(&self, class_names: &[Vec<u8>]) -> (out: Vec<u8>)
        ensures
            out@ == confusion_text(self@, texts(class_names@), self.classes() as int),
    {
        let ghost names = texts(class_names@);
        let ghost counts = self@;
        let n = self.n_classes();
        let mut out = title_bytes();
        push_spaces(&mut out, 14);
        let mut j: usize = 0;
        while j < n
            invariant
                j <= n,
                out@ == title_text() + spaces(14) + header_cells(j as int),
            decreases n - j,
        {
            push_number_field(&mut out, j, 6);
            proof {
                assert(title_text() + spaces(14) + header_cells(j + 1) =~= title_text() + spaces(14)
                    + header_cells(j as int) + number_field(j as nat, 6));
            }
            j = j + 1;
        }
        out.push(0x0a);
        let ghost top = out@;
        let mut i: usize = 0;
        while i < n
            invariant
                i <= n,
                n == self.classes(),
                counts == self@,
                names == texts(class_names@),
                out@ == top + table_rows(counts, names, n as int, i as int),
            decreases n - i,
        {
            let label = if i < class_names.len() {
                first_chars(&class_names[i], 13)
            } else {
                let unknown: Vec<u8> = vec![0x3f];
                assert(unknown@ =~= unknown_name());
                first_chars(&unknown, 13)
            };
            assert(label@ == short_name(names, i as int));
            let shown = count_chars(&label);
            let ghost before = out@;
            push_padded(&mut out, &label, shown, 14);
            let ghost start = out@;
            let mut j: usize = 0;
            while j < n
                invariant
                    j <= n,
                    i < n,
                    n == self.classes(),
                    counts == self@,
                    out@ == start + row_cells(counts, n as int, i as int, j as int),
                decreases n - j,
            {
                proof {
                    lemma_row_cell_bound(n as int, i as int, j + 1);
                }
                let c = self.get(i, j);
                if i == j {
                    push_number_field(&mut out, c, 5);
                    out.push(0x2a);
                } else {
                    push_number_field(&mut out, c, 6);
                }
                proof {
                    assert(start + row_cells(counts, n as int, i as int, j + 1) =~= start + row_cells(
                        counts,
                        n as int,
                        i as int,
                        j as int,
                    ) + count_field(counts, n as int, i as int, j as int));
                }
                j = j + 1;
            }
            out.push(0x0a);
            proof {
                assert(out@ =~= before + row_line(counts, names, n as int, i as int));
                assert(top + table_rows(counts, names, n as int, i + 1) =~= top + table_rows(
                    counts,
                    names,
                    n as int,
                    i as int,
                ) + row_line(counts, names, n as int, i as int));
            }
            i = i + 1;
        }
        out.push(0x0a);
        proof {
            assert(out@ =~= confusion_text(counts, names, n as int));
        }
        out
    }
}

// ---------------------------------------------------------------------
// What the table says
// ---------------------------------------------------------------------

/// `s[lo..hi]` is one field holding `v`: spaces, then the decimal
/// digits of `v` (followed by `*` when `starred`), which read back as
/// `v`.
pub open spec fn field_reads_as(s: Seq<u8>, lo: int, hi: int, v: nat, starred: bool) -> bool {
    let t = tokens(s, lo, hi);
    let end = if starred {
        hi - 1
    } else {
        hi
    };
    &&& t.len() == 1
    &&& t[0].1 == hi
    &&& forall|k: int| lo <= k < t[0].0 ==> s[k] == 0x20
    &&& (starred ==> s[hi - 1] == 0x2a)
    &&& is_usize_text(s, t[0].0, end)
    &&& usize_text_value(s, t[0].0, end) == v
}

/// In the table text `s` over `n` classes, the six characters of column
/// `j` at the end of the line of class `i` (line `3 + i`, after the
/// empty line, the title and the header) hold count (i, j), starred on
/// the diagonal.
pub open spec fn table_field_reads_back(s: Seq<u8>, counts: Seq<usize>, n: int, i: int, j: int) -> bool {
    let line = lines(s)[3 + i];
    let lo = line.1 - 6 * (n - j);
    &&& line.0 <= line.1 - 6 * n
    &&& field_reads_as(s, lo, lo + 6, counts[cell(i, j, n)] as nat, i == j)
}

/// In the table text `s` over `n` classes, the line of class `i` starts
/// with its label right-aligned in 14 characters.
pub open spec fn table_row_label(s: Seq<u8>, names: Seq<Seq<u8>>, n: int, i: int) -> bool {
    let line = lines(s)[3 + i];
    let label = short_name(names, i);
    s.subrange(line.0, line.1 - 6 * n) == left_pad(label, char_count(label), 14)
}

/// `10` to the power `k`.
pub open spec fn pow10(k: nat) -> nat
    decreases k,
{
    if k == 0 {
        1
    } else {
        10 * pow10((k - 1) as nat)
    }
}

pub(crate) proof fn lemma_decimal_len(v: nat, k: nat)
    requires
        1 <= k,
        v < pow10(k),
    ensures
        decimal(v).len() <= k,
    decreases v,
{
    if v >= 10 {
        if k == 1 {
            assert(pow10(1) == 10 * pow10(0));
        }
        let k1 = (k - 1) as nat;
        assert(pow10(k) == 10 * pow10(k1));
        assert(v / 10 < pow10(k1)) by (nonlinear_arith)
            requires
                v < 10 * pow10(k1),
        ;
        lemma_decimal_len(v / 10, k1);
    }
}

/// Text of spaces and printable ASCII only.
pub open spec fn tidy(t: Seq<u8>) -> bool {
    forall|k: int| 0 <= k < t.len() ==> #[trigger] t[k] == 0x20 || plain_byte(t[k])
}

/// `*` after a field on the diagonal.
pub open spec fn star(starred: bool) -> Seq<u8> {
    if starred {
        seq![0x2au8]
    } else {
        seq![]
    }
}

pub(crate) proof fn lemma_tidy_concat(a: Seq<u8>, b: Seq<u8>)
    requires
        tidy(a),
        tidy(b),
    ensures
        tidy(a + b),
{
    assert forall|k: int| 0 <= k < (a + b).len() implies #[trigger] (a + b)[k] == 0x20 || plain_byte(
        (a + b)[k],
    ) by {
        if k < a.len() {
            assert((a + b)[k] == a[k]);
        } else {
            assert((a + b)[k] == b[k - a.len()]);
        }
    }
}

pub(crate) proof fn lemma_number_field_shape(v: nat, w: nat, starred: bool)
    ensures
        ({
            let d = decimal(v);
            let pad = if d.len() >= w {
                0nat
            } else {
                (w - d.len()) as nat
            };
            number_field(v, w) + star(starred) =~= spaces(pad) + d + star(starred)
        }),
        tidy(number_field(v, w) + star(starred)),
        number_field(v, w).len() >= 1,
{
    let d = decimal(v);
    lemma_decimal_plain(v);
    if d.len() >= w {
        assert(spaces(0) + d =~= d);
    }
    let pad = if d.len() >= w {
        0nat
    } else {
        (w - d.len()) as nat
    };
    assert(tidy(spaces(pad)));
    assert(tidy(d));
    assert(tidy(star(starred)));
    lemma_tidy_concat(spaces(pad), d);
    lemma_tidy_concat(spaces(pad) + d, star(starred));
}

/// A field written by the table reads back as its number, wherever it
/// stands in a text.
pub(crate) proof fn lemma_field_at(s: Seq<u8>, lo: int, hi: int, v: usize, w: nat, starred: bool)
    requires
        0 <= lo <= hi <= s.len(),
        s.subrange(lo, hi) == number_field(v as nat, w) + star(starred),
    ensures
        field_reads_as(s, lo, hi, v as nat, starred),
{
    let d = decimal(v as nat);
    lemma_decimal_plain(v as nat);
    lemma_number_field_shape(v as nat, w, starred);
    let pad = if d.len() >= w {
        0nat
    } else {
        (w - d.len()) as nat
    };
    let f = spaces(pad) + d + star(starred);
    let p = lo + pad;
    let end = if starred {
        hi - 1
    } else {
        hi
    };
    assert(hi - lo == f.len());
    assert(end == p + d.len());
    assert forall|k: int| lo <= k < p implies #[trigger] s[k] == 0x20 by {
        assert(s.subrange(lo, hi)[k - lo] == s[k]);
        assert(f[k - lo] == spaces(pad)[k - lo]);
    }
    assert forall|k: int| p <= k < hi implies plain_byte(#[trigger] s[k]) by {
        assert(s.subrange(lo, hi)[k - lo] == s[k]);
        if k < end {
            assert(f[k - lo] == d[k - p]);
        } else {
            assert(f[k - lo] == 0x2a);
        }
    }
    lemma_padded_word_tokens(s, lo, p, hi);
    assert(s.subrange(p, end) =~= d) by {
        assert forall|k: int| 0 <= k < d.len() implies s.subrange(p, end)[k] == d[k] by {
            assert(s.subrange(lo, hi)[pad + k] == s[p + k]);
            assert(f[pad + k] == d[k]);
        }
    }
    lemma_decimal_reads_back(s, p, end, v);
    if starred {
        assert(s.subrange(lo, hi)[hi - 1 - lo] == s[hi - 1]);
        assert(f[hi - 1 - lo] == 0x2a);
    }
}

/// Every field of the table, whatever the count, is spaces and then the
/// count in decimal (followed by `*` on the diagonal), and reads back
/// as that count.
pub proof fn lemma_field_reads_back(counts: Seq<usize>, n: int, i: int, j: int)
    ensures
        field_reads_as(
            count_field(counts, n, i, j),
            0,
            count_field(counts, n, i, j).len() as int,
            counts[cell(i, j, n)] as nat,
            i == j,
        ),
{
    let f = count_field(counts, n, i, j);
    let c = counts[cell(i, j, n)];
    assert(f.subrange(0, f.len() as int) =~= f);
    if i == j {
        lemma_field_at(f, 0, f.len() as int, c, 5, true);
    } else {
        assert(f =~= number_field(c as nat, 6) + star(false));
        lemma_field_at(f, 0, f.len() as int, c, 6, false);
    }
}

/// Every count of row `i` fits its six-character column.
pub open spec fn row_fits(counts: Seq<usize>, n: int, i: int) -> bool {
    forall|j: int|
        0 <= j < n ==> #[trigger] counts[cell(i, j, n)] < if i == j {
            100000nat
        } else {
            1000000nat
        }
}

proof fn lemma_count_field_width(counts: Seq<usize>, n: int, i: int, j: int)
    requires
        0 <= j < n,
        row_fits(counts, n, i),
    ensures
        count_field(counts, n, i, j).len() == 6,
        tidy(count_field(counts, n, i, j)),
{
    let c = counts[cell(i, j, n)];
    assert(pow10(0) == 1);
    assert(pow10(1) == 10);
    assert(pow10(2) == 100);
    assert(pow10(3) == 1000);
    assert(pow10(4) == 10000);
    assert(pow10(5) == 100000);
    assert(pow10(6) == 1000000);
    if i == j {
        lemma_decimal_len(c as nat, 5);
        lemma_number_field_shape(c as nat, 5, true);
    } else {
        lemma_decimal_len(c as nat, 6);
        lemma_number_field_shape(c as nat, 6, false);
        assert(number_field(c as nat, 6) + star(false) =~= number_field(c as nat, 6));
    }
}

proof fn lemma_row_cells_columns(counts: Seq<usize>, n: int, i: int, j: int)
    requires
        0 <= j <= n,
        row_fits(counts, n, i),
    ensures
        row_cells(counts, n, i, j).len() == 6 * j,
        tidy(row_cells(counts, n, i, j)),
        forall|k: int|
            0 <= k < j ==> row_cells(counts, n, i, j).subrange(6 * k, 6 * k + 6) == #[trigger] count_field(
                counts,
                n,
                i,
                k,
            ),
    decreases j,
{
    if j > 0 {
        lemma_row_cells_columns(counts, n, i, j - 1);
        lemma_count_field_width(counts, n, i, j - 1);
        let prev = row_cells(counts, n, i, j - 1);
        let last = count_field(counts, n, i, j - 1);
        let all = row_cells(counts, n, i, j);
        assert(all == prev + last);
        lemma_tidy_concat(prev, last);
        assert forall|k: int| 0 <= k < j implies all.subrange(6 * k, 6 * k + 6) == #[trigger] count_field(
            counts,
            n,
            i,
            k,
        ) by {
            if k < j - 1 {
                assert(all.subrange(6 * k, 6 * k + 6) =~= prev.subrange(6 * k, 6 * k + 6));
            } else {
                assert(all.subrange(6 * k, 6 * k + 6) =~= last);
            }
        }
    } else {
        assert(row_cells(counts, n, i, j).len() == 0);
    }
}

proof fn lemma_header_cells_tidy(j: int)
    ensures
        tidy(header_cells(j)),
    decreases j,
{
    if j > 0 {
        lemma_header_cells_tidy(j - 1);
        lemma_number_field_shape((j - 1) as nat, 6, false);
        assert(number_field((j - 1) as nat, 6) + star(false) =~= number_field((j - 1) as nat, 6));
        lemma_tidy_concat(header_cells(j - 1), number_field((j - 1) as nat, 6));
    }
}

/// The title without its surrounding newlines.
pub open spec fn title_words() -> Seq<u8> {
    title_text().subrange(1, 48)
}

/// The line of class `i` without its newline.
pub open spec fn row_text(counts: Seq<usize>, names: Seq<Seq<u8>>, n: int, i: int) -> Seq<u8> {
    let label = short_name(names, i);
    left_pad(label, char_count(label), 14) + row_cells(counts, n, i, n)
}

/// The lines of the table, without their newlines.
pub open spec fn table_lines(counts: Seq<usize>, names: Seq<Seq<u8>>, n: int) -> Seq<Seq<u8>> {
    seq![seq![], title_words(), spaces(14) + header_cells(n)] + Seq::new(
        n as nat,
        |i: int| row_text(counts, names, n, i),
    ) + seq![seq![]]
}

pub(crate) proof fn lemma_block_one(x: Seq<u8>)
    ensures
        line_block(seq![x]) == x + seq![0x0au8],
{
    let one = seq![x];
    assert(one.drop_first() =~= Seq::<Seq<u8>>::empty());
    assert(line_block(Seq::<Seq<u8>>::empty()) == Seq::<u8>::empty());
    assert(one[0] == x);
    assert(line_block(one) == one[0] + seq![0x0au8] + line_block(one.drop_first()));
    assert(line_block(one) =~= x + seq![0x0au8]);
}

proof fn lemma_rows_block(counts: Seq<usize>, names: Seq<Seq<u8>>, n: int, k: int)
    requires
        0 <= k <= n,
    ensures
        table_rows(counts, names, n, k) == line_block(
            Seq::new(k as nat, |i: int| row_text(counts, names, n, i)),
        ),
    decreases k,
{
    let rows = Seq::new(k as nat, |i: int| row_text(counts, names, n, i));
    if k == 0 {
        assert(rows =~= Seq::<Seq<u8>>::empty());
    } else {
        let prev = Seq::new((k - 1) as nat, |i: int| row_text(counts, names, n, i));
        lemma_rows_block(counts, names, n, k - 1);
        assert(rows =~= prev + seq![row_text(counts, names, n, k - 1)]);
        lemma_line_block_concat(prev, seq![row_text(counts, names, n, k - 1)]);
        lemma_block_one(row_text(counts, names, n, k - 1));
        assert(row_line(counts, names, n, k - 1) =~= row_text(counts, names, n, k - 1) + seq![
            0x0au8,
        ]);
    }
}

proof fn lemma_table_is_block(counts: Seq<usize>, names: Seq<Seq<u8>>, n: int)
    requires
        0 <= n,
    ensures
        confusion_text(counts, names, n) == line_block(table_lines(counts, names, n)),
{
    let e = Seq::<u8>::empty();
    let hl = spaces(14) + header_cells(n);
    let rows = Seq::new(n as nat, |i: int| row_text(counts, names, n, i));
    lemma_rows_block(counts, names, n, n);
    lemma_block_one(e);
    lemma_block_one(title_words());
    lemma_block_one(hl);
    lemma_line_block_concat(seq![e], seq![title_words()]);
    lemma_line_block_concat(seq![e] + seq![title_words()], seq![hl]);
    lemma_line_block_concat(seq![e] + seq![title_words()] + seq![hl], rows);
    lemma_line_block_concat(seq![e] + seq![title_words()] + seq![hl] + rows, seq![e]);
    assert(seq![e] + seq![title_words()] + seq![hl] =~= seq![e, title_words(), hl]);
    assert(title_text() =~= seq![0x0au8] + title_words() + seq![0x0au8]);
    assert(confusion_text(counts, names, n) =~= line_block(table_lines(counts, names, n)));
}

proof fn lemma_table_lines_clean(counts: Seq<usize>, names: Seq<Seq<u8>>, n: int)
    requires
        0 <= n,
        forall|k: int, b: int| 0 <= k < names.len() && 0 <= b < names[k].len() ==> #[trigger] names[k][b]
            != 0x0a,
        forall|i: int| 0 <= i < n ==> #[trigger] row_fits(counts, n, i),
    ensures
        forall|k: int|
            0 <= k < table_lines(counts, names, n).len() ==> clean_line(
                #[trigger] table_lines(counts, names, n)[k],
            ),
{
    let cs = table_lines(counts, names, n);
    let tw = title_words();
    assert forall|k: int| 0 <= k < tw.len() implies #[trigger] tw[k] != 0x0a by {
        assert(tw[k] == title_text()[k + 1]);
    }
    assert(tw.last() == title_text()[47]);
    lemma_header_cells_tidy(n);
    assert(tidy(spaces(14)));
    lemma_tidy_concat(spaces(14), header_cells(n));
    let hl = spaces(14) + header_cells(n);
    assert(hl.last() == hl[hl.len() - 1]);
    assert forall|k: int| 0 <= k < cs.len() implies clean_line(#[trigger] cs[k]) by {
        if k == 0 || k == cs.len() - 1 {
            assert(cs[k] =~= Seq::<u8>::empty());
        } else if k == 1 {
            assert(cs[k] == tw);
        } else if k == 2 {
            assert(cs[k] == hl);
            assert(hl[hl.len() - 1] == 0x20 || plain_byte(hl[hl.len() - 1]));
        } else {
            let i = k - 3;
            assert(cs[k] == row_text(counts, names, n, i));
            assert(row_fits(counts, n, i));
            lemma_row_cells_columns(counts, n, i, n);
            let name = if i < names.len() {
                names[i]
            } else {
                unknown_name()
            };
            let label = short_name(names, i);
            assert forall|b: int| 0 <= b < name.len() implies #[trigger] name[b] != 0x0a by {
                if i < names.len() {
                    assert(names[i][b] != 0x0a);
                } else {
                    assert(unknown_name()[0] == 0x3f);
                }
            }
            lemma_chars_end_bounds(name, 13, 0);
            assert forall|b: int| 0 <= b < label.len() implies #[trigger] label[b] != 0x0a by {
                assert(label[b] == name[b]);
            }
            let lf = left_pad(label, char_count(label), 14);
            assert forall|b: int| 0 <= b < lf.len() implies #[trigger] lf[b] != 0x0a by {
                if char_count(label) < 14 {
                    let pad = (14 - char_count(label)) as nat;
                    if b >= pad {
                        assert(lf[b] == label[b - pad]);
                    } else {
                        assert(lf[b] == spaces(pad)[b]);
                    }
                }
            }
            let rc = row_cells(counts, n, i, n);
            let line = lf + rc;
            assert forall|b: int| 0 <= b < line.len() implies #[trigger] line[b] != 0x0a by {
                if b < lf.len() {
                    assert(line[b] == lf[b]);
                } else {
                    assert(line[b] == rc[b - lf.len()]);
                }
            }
            assert(line.last() == rc[rc.len() - 1]);
        }
    }
}

/// The table says what the matrix holds: it has a line for each class
/// after the title and the header; each such line starts with the
/// class's label and ends with one six-character field per predicted
/// class, and field (i, j) is spaces and then count (i, j) in decimal,
/// starred on the diagonal, reading back as that count. This holds
/// when the class names have no line breaks and every count fits its
/// column (under 100000 on the diagonal, under 1000000 elsewhere;
/// wider counts run into the field before them).
pub proof fn lemma_table_fields_read_back(counts: Seq<usize>, names: Seq<Seq<u8>>, n: int)
    requires
        0 <= n,
        forall|k: int, b: int| 0 <= k < names.len() && 0 <= b < names[k].len() ==> #[trigger] names[k][b]
            != 0x0a,
        forall|i: int| 0 <= i < n ==> #[trigger] row_fits(counts, n, i),
    ensures
        lines(confusion_text(counts, names, n)).len() == n + 4,
        forall|i: int| 0 <= i < n ==> #[trigger] table_row_label(confusion_text(counts, names, n), names, n, i),
        forall|i: int, j: int|
            0 <= i < n && 0 <= j < n ==> #[trigger] table_field_reads_back(
                confusion_text(counts, names, n),
                counts,
                n,
                i,
                j,
            ),
{
    let s = confusion_text(counts, names, n);
    let cs = table_lines(counts, names, n);
    lemma_table_is_block(counts, names, n);
    lemma_table_lines_clean(counts, names, n);
    assert(s.subrange(0, s.len() as int) =~= s);
    lemma_lines_of_block(s, 0, cs);
    assert(lines(s) == crate::text::lines_scan(s, 0, 0));
    assert forall|i: int| 0 <= i < n implies #[trigger] table_row_label(s, names, n, i) by {
        assert(cs[3 + i] == row_text(counts, names, n, i));
        assert(row_fits(counts, n, i));
        lemma_row_cells_columns(counts, n, i, n);
        let line = lines(s)[3 + i];
        let lf = left_pad(short_name(names, i), char_count(short_name(names, i)), 14);
        assert(s.subrange(line.0, line.1) == lf + row_cells(counts, n, i, n));
        assert(s.subrange(line.0, line.1 - 6 * n) =~= lf) by {
            assert forall|b: int| 0 <= b < lf.len() implies s.subrange(line.0, line.1 - 6 * n)[b] == lf[b] by {
                assert(s.subrange(line.0, line.1)[b] == (lf + row_cells(counts, n, i, n))[b]);
            }
        }
    }
    assert forall|i: int, j: int| 0 <= i < n && 0 <= j < n implies #[trigger] table_field_reads_back(
        s,
        counts,
        n,
        i,
        j,
    ) by {
        assert(cs[3 + i] == row_text(counts, names, n, i));
        assert(row_fits(counts, n, i));
        lemma_row_cells_columns(counts, n, i, n);
        let line = lines(s)[3 + i];
        let lf = left_pad(short_name(names, i), char_count(short_name(names, i)), 14);
        let rc = row_cells(counts, n, i, n);
        assert(s.subrange(line.0, line.1) == lf + rc);
        let lo = line.1 - 6 * (n - j);
        assert(lo == line.0 + lf.len() + 6 * j);
        let f = count_field(counts, n, i, j);
        assert(rc.subrange(6 * j, 6 * j + 6) == f);
        assert(s.subrange(lo, lo + 6) =~= f) by {
            assert forall|b: int| 0 <= b < 6 implies s.subrange(lo, lo + 6)[b] == f[b] by {
                assert(s.subrange(line.0, line.1)[lf.len() + 6 * j + b] == s[lo + b]);
                assert((lf + rc)[lf.len() + 6 * j + b] == rc[6 * j + b]);
                assert(rc.subrange(6 * j, 6 * j + 6)[b] == rc[6 * j + b]);
            }
        }
        let c = counts[cell(i, j, n)];
        if i == j {
            lemma_field_at(s, lo, lo + 6, c, 5, true);
        } else {
            assert(f =~= number_field(c as nat, 6) + star(false));
            lemma_field_at(s, lo, lo + 6, c, 6, false);
        }
    }
}

/// In the table text `s` over `n` classes, the header (line 2) holds the
/// column number `j` in the six characters of column `j`, after 14
/// spaces.
pub open spec fn table_header_number(s: Seq<u8>, j: int) -> bool {
    let line = lines(s)[2];
    field_reads_as(s, line.0 + 14 + 6 * j, line.0 + 14 + 6 * j + 6, j as nat, false)
}

proof fn lemma_header_cells_columns(j: int)
    requires
        0 <= j <= 1000000,
    ensures
        header_cells(j).len() == 6 * j,
        forall|k: int|
            0 <= k < j ==> header_cells(j).subrange(6 * k, 6 * k + 6) == #[trigger] number_field(
                k as nat,
                6,
            ),
    decreases j,
{
    if j > 0 {
        lemma_header_cells_columns(j - 1);
        assert(pow10(0) == 1);
        assert(pow10(1) == 10);
        assert(pow10(2) == 100);
        assert(pow10(3) == 1000);
        assert(pow10(4) == 10000);
        assert(pow10(5) == 100000);
        assert(pow10(6) == 1000000);
        lemma_decimal_len((j - 1) as nat, 6);
        let prev = header_cells(j - 1);
        let last = number_field((j - 1) as nat, 6);
        let all = header_cells(j);
        assert(all == prev + last);
        assert forall|k: int| 0 <= k < j implies all.subrange(6 * k, 6 * k + 6) == #[trigger] number_field(
            k as nat,
            6,
        ) by {
            if k < j - 1 {
                assert(all.subrange(6 * k, 6 * k + 6) =~= prev.subrange(6 * k, 6 * k + 6));
            } else {
                assert(all.subrange(6 * k, 6 * k + 6) =~= last);
            }
        }
    }
}

/// The header of the table numbers the columns `0..n` in order, one per
/// six-character field after 14 spaces, each reading back as its
/// number (for tables whose lines split as in
/// `lemma_table_fields_read_back`).
pub proof fn lemma_table_header_numbers(counts: Seq<usize>, names: Seq<Seq<u8>>, n: int)
    requires
        0 <= n <= 1000000,
        forall|k: int, b: int| 0 <= k < names.len() && 0 <= b < names[k].len() ==> #[trigger] names[k][b]
            != 0x0a,
        forall|i: int| 0 <= i < n ==> #[trigger] row_fits(counts, n, i),
    ensures
        forall|j: int| 0 <= j < n ==> #[trigger] table_header_number(confusion_text(counts, names, n), j),
{
    let s = confusion_text(counts, names, n);
    let cs = table_lines(counts, names, n);
    lemma_table_is_block(counts, names, n);
    lemma_table_lines_clean(counts, names, n);
    assert(s.subrange(0, s.len() as int) =~= s);
    lemma_lines_of_block(s, 0, cs);
    assert(lines(s) == crate::text::lines_scan(s, 0, 0));
    lemma_header_cells_columns(n);
    let hl = spaces(14) + header_cells(n);
    assert(cs[2] == hl);
    let line = lines(s)[2];
    assert(s.subrange(line.0, line.1) == hl);
    assert forall|j: int| 0 <= j < n implies #[trigger] table_header_number(s, j) by {
        let lo = line.0 + 14 + 6 * j;
        let f = number_field(j as nat, 6);
        assert(header_cells(n).subrange(6 * j, 6 * j + 6) == f);
        assert(s.subrange(lo, lo + 6) =~= f + star(false)) by {
            assert forall|b: int| 0 <= b < 6 implies s.subrange(lo, lo + 6)[b] == (f + star(false))[b] by {
                assert(s.subrange(line.0, line.1)[14 + 6 * j + b] == s[lo + b]);
                assert(hl[14 + 6 * j + b] == header_cells(n)[6 * j + b]);
                assert(header_cells(n).subrange(6 * j, 6 * j + 6)[b] == header_cells(n)[6 * j + b]);
            }
        }
        lemma_field_at(s, lo, lo + 6, j as usize, 6, false);
    }
}

} // verus!
