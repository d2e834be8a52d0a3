//! The dataset CSV format: a header line, then one line per image with
//! the class label followed by 784 pixel values, separated by commas.
//! Blank lines are skipped; rows are numbered from 1 counting the
//! header. The pixel values are decimal numbers whose reading is left
//! to the caller; this module checks the shape of every line and reads
//! the labels.

use vstd::prelude::*;
use crate::text::{lines, lines_scan, fields, tokens, is_usize_text, usize_text_value};
use crate::text::{split_lines, split_commas, split_tokens, parse_usize};

verus! {

/// Pixels per image (28 x 28).
pub const PIXELS: usize = 784;

/// Fields per data line: the label and the pixels.
pub const FIELDS: usize = 785;

/// Why a data line was rejected. Rows count the header as row 1;
/// fields are byte spans of the text.
#[derive(Debug, Clone, Copy, PartialEq, Eq, Structural)]
pub enum CsvError {
    /// The line does not have exactly `FIELDS` fields.
    FieldCount { row: usize, found: usize },
    /// The first field (the span `start..end`) is not an unsigned
    /// integer.
    InvalidLabel { row: usize, start: usize, end: usize },
}

/// One well-formed data line: its row number, its label and the spans
/// of its `PIXELS` pixel fields.
pub struct CsvRow {
    pub row: usize,
    pub label: usize,
    pub pixels: Vec<(usize, usize)>,
}

/// The outcome of reading a dataset: the well-formed non-blank data
/// lines, in order, up to the first malformed one, and what is wrong
/// with that one (none when every line is well formed).
pub struct DatasetScan {
    pub rows: Vec<CsvRow>,
    pub fault: Option<CsvError>,
}

/// The data lines: every line after the header.
pub open spec fn data_lines(s: Seq<u8>) -> Seq<(int, int)> {
    if lines(s).len() == 0 {
        seq![]
    } else {
        lines(s).drop_first()
    }
}

/// A line with nothing but whitespace.
pub open spec fn is_blank(s: Seq<u8>, line: (int, int)) -> bool {
    tokens(s, line.0, line.1).len() == 0
}

/// What is wrong with the shape of a non-blank data line, if anything.
pub open spec fn row_fault(s: Seq<u8>, line: (int, int), row: int) -> Option<CsvError> {
    let f = fields(s, line.0, line.1);
    if f.len() != FIELDS {
        Some(CsvError::FieldCount { row: row as usize, found: f.len() as usize })
    } else if !is_usize_text(s, f[0].0, f[0].1) {
        Some(CsvError::InvalidLabel { row: row as usize, start: f[0].0 as usize, end: f[0].1 as usize })
    } else {
        None
    }
}

/// Reading the data lines from index `k` on: the indices of the
/// non-blank well-formed lines up to the first malformed one, and that
/// line's fault.
pub open spec fn scan_from(s: Seq<u8>, data: Seq<(int, int)>, k: int) -> (Seq<int>, Option<CsvError>)
    decreases data.len() - k,
{
    if k >= data.len() || k < 0 {
        (seq![], None)
    } else if is_blank(s, data[k]) {
        scan_from(s, data, k + 1)
    } else {
        match row_fault(s, data[k], k + 2) {
            Some(e) => (seq![], Some(e)),
            None => {
                let rest = scan_from(s, data, k + 1);
                (seq![k] + rest.0, rest.1)
            },
        }
    }
}

/// The dataset read from `s`: indices (into `data_lines(s)`) of the
/// accepted lines, and the first fault.
pub open spec fn scan(s: Seq<u8>) -> (Seq<int>, Option<CsvError>) {
    scan_from(s, data_lines(s), 0)
}

/// `row` holds the row number, label and pixel spans of data line `k`.
pub open spec fn row_matches(s: Seq<u8>, k: int, row: CsvRow) -> bool {
    let line = data_lines(s)[k];
    let f = fields(s, line.0, line.1);
    &&& row.row == k + 2
    &&& row.label == usize_text_value(s, f[0].0, f[0].1)
    &&& row.pixels@.len() == PIXELS
    &&& forall|p: int|
        0 <= p < PIXELS ==> (#[trigger] row.pixels@[p]).0 == f[p + 1].0 && row.pixels@[p].1 == f[p
            + 1].1
}

/// Reads the lines of a dataset text: checks the field count of every
/// non-blank data line and reads its label, stopping at the first
/// malformed line.
pub fn scan_dataset(s: &[u8]) -> (r: DatasetScan)
    ensures
        r.rows@.len() == scan(s@).0.len(),
        forall|i: int| 0 <= i < r.rows@.len() ==> row_matches(s@, scan(s@).0[i], #[trigger] r.rows@[i]),
        r.fault == scan(s@).1,
{
    let all = split_lines(s);
    let ghost data = data_lines(s@);
    let mut rows: Vec<CsvRow> = Vec::new();
    let ghost taken: Seq<int> = seq![];
    let mut k: usize = 1;
    while k < all.len()
        invariant
            1 <= k <= all@.len() || all@.len() == 0,
            all@.len() == lines(s@).len(),
            all@.len() <= s@.len(),
            forall|m: int| 0 <= m < all@.len() ==> 0 <= (#[trigger] all@[m]).0 <= all@[m].1 <= s@.len(),
            forall|m: int|
                0 <= m < all@.len() ==> (#[trigger] all@[m]).0 == lines(s@)[m].0 && all@[m].1
                    == lines(s@)[m].1,
            data == data_lines(s@),
            taken + scan_from(s@, data, k - 1).0 == scan(s@).0,
            scan_from(s@, data, k - 1).1 == scan(s@).1,
            rows@.len() == taken.len(),
            forall|i: int| 0 <= i < rows@.len() ==> row_matches(s@, taken[i], #[trigger] rows@[i]),
        decreases all@.len() - k,
    {
        let (lo, hi) = all[k];
        let line_tokens = split_tokens(s, lo, hi);
        let ghost dk = (k - 1) as int;
        assert(data[dk] == lines(s@)[k as int]);
        if line_tokens.len() == 0 {
            k = k + 1;
            continue;
        }
        let row = k + 1;
        let f = split_commas(s, lo, hi);
        if f.len() != FIELDS {
            return DatasetScan { rows, fault: Some(CsvError::FieldCount { row, found: f.len() }) };
        }
        let label = match parse_usize(s, f[0].0, f[0].1) {
            Some(v) => v,
            None => {
                return DatasetScan {
                    rows,
                    fault: Some(CsvError::InvalidLabel { row, start: f[0].0, end: f[0].1 }),
                };
            },
        };
        let mut pixels: Vec<(usize, usize)> = Vec::new();
        let mut p: usize = 1;
        while p < FIELDS
            invariant
                1 <= p <= FIELDS,
                f@.len() == FIELDS,
                pixels@.len() == p - 1,
                forall|q: int| 0 <= q < p - 1 ==> #[trigger] pixels@[q] == f@[q + 1],
            decreases FIELDS - p,
        {
            pixels.push(f[p]);
            p = p + 1;
        }
        rows.push(CsvRow { row, label, pixels });
        proof {
            taken = taken.push(dk);
        }
        k = k + 1;
    }
    DatasetScan { rows, fault: None }
}

/// Index `m` is among the accepted indices `acc`.
pub open spec fn accepted(acc: Seq<int>, m: int) -> bool {
    exists|i: int| 0 <= i < acc.len() && acc[i] == m
}

proof fn lemma_scan_from_facts(s: Seq<u8>, data: Seq<(int, int)>, k: int)
    requires
        0 <= k <= data.len(),
    ensures
        ({
            let acc = scan_from(s, data, k).0;
            let f = scan_from(s, data, k).1;
            &&& forall|i: int|
                0 <= i < acc.len() ==> k <= #[trigger] acc[i] < data.len() && !is_blank(s, data[acc[i]])
                    && row_fault(s, data[acc[i]], acc[i] + 2) is None
            &&& forall|i: int, j: int| 0 <= i < j < acc.len() ==> #[trigger] acc[i] < #[trigger] acc[j]
            &&& f is None ==> forall|m: int|
                k <= m < data.len() && !is_blank(s, data[m]) ==> #[trigger] accepted(acc, m)
            &&& f is Some ==> exists|m: int|
                k <= m < data.len() && !is_blank(s, data[m]) && row_fault(s, data[m], m + 2) == f && (
                forall|i: int| 0 <= i < acc.len() ==> #[trigger] acc[i] < m) && (forall|q: int|
                    k <= q < m && !is_blank(s, data[q]) ==> #[trigger] accepted(acc, q))
        }),
    decreases data.len() - k,
{
    if k < data.len() {
        lemma_scan_from_facts(s, data, k + 1);
        let rest = scan_from(s, data, k + 1);
        if is_blank(s, data[k]) {
            assert(scan_from(s, data, k) == rest);
        } else {
            match row_fault(s, data[k], k + 2) {
                Some(e) => {
                    let r = scan_from(s, data, k);
                    assert(r.0.len() == 0);
                    assert(k <= k < data.len() && !is_blank(s, data[k]) && row_fault(s, data[k], k + 2)
                        == r.1);
                },
                None => {
                    let acc = scan_from(s, data, k).0;
                    assert(acc == seq![k] + rest.0);
                    assert forall|i: int| 0 <= i < acc.len() implies k <= #[trigger] acc[i] < data.len()
                        && !is_blank(s, data[acc[i]]) && row_fault(s, data[acc[i]], acc[i] + 2) is None by {
                        if i > 0 {
                            assert(acc[i] == rest.0[i - 1]);
                        }
                    }
                    assert forall|i: int, j: int| 0 <= i < j < acc.len() implies #[trigger] acc[i]
                        < #[trigger] acc[j] by {
                        assert(acc[j] == rest.0[j - 1]);
                        if i > 0 {
                            assert(acc[i] == rest.0[i - 1]);
                        }
                    }
                    assert forall|m: int| k <= m < data.len() && accepted(rest.0, m) implies #[trigger] accepted(acc, m) by {
                        let i = choose|i: int| 0 <= i < rest.0.len() && rest.0[i] == m;
                        assert(acc[i + 1] == rest.0[i]);
                    }
                    assert(accepted(acc, k)) by {
                        assert(acc[0] == k);
                    }
                    if rest.1 is Some {
                        let m = choose|m: int|
                            k + 1 <= m < data.len() && !is_blank(s, data[m]) && row_fault(s, data[m], m + 2)
                                == rest.1 && (forall|i: int| 0 <= i < rest.0.len() ==> #[trigger] rest.0[i]
                                < m) && (forall|q: int|
                                k + 1 <= q < m && !is_blank(s, data[q]) ==> #[trigger] accepted(rest.0, q));
                        assert forall|i: int| 0 <= i < acc.len() implies #[trigger] acc[i] < m by {
                            if i > 0 {
                                assert(acc[i] == rest.0[i - 1]);
                            }
                        }
                        assert forall|q: int| k <= q < m && !is_blank(s, data[q]) implies #[trigger] accepted(
                            acc,
                            q,
                        ) by {
                            if q > k {
                                assert(accepted(rest.0, q));
                            }
                        }
                    }
                },
            }
        }
    }
}

/// Reading a dataset keeps the data lines in file order, skips blank
/// lines, and stops at the first malformed line: when there is no
/// fault every non-blank data line is accepted, and otherwise the fault
/// is that of a non-blank data line after every accepted one, all
/// non-blank lines before it being accepted.
pub proof fn lemma_scan_keeps_order_and_stops_at_fault(s: Seq<u8>)
    ensures
        forall|i: int, j: int|
            0 <= i < j < scan(s).0.len() ==> #[trigger] scan(s).0[i] < #[trigger] scan(s).0[j],
        scan(s).1 is None ==> forall|m: int|
            0 <= m < data_lines(s).len() && !is_blank(s, data_lines(s)[m]) ==> #[trigger] accepted(
                scan(s).0,
                m,
            ),
        scan(s).1 is Some ==> exists|m: int|
            0 <= m < data_lines(s).len() && !is_blank(s, data_lines(s)[m]) && row_fault(
                s,
                data_lines(s)[m],
                m + 2,
            ) == scan(s).1 && (forall|i: int| 0 <= i < scan(s).0.len() ==> #[trigger] scan(s).0[i] < m)
                && (forall|q: int|
                0 <= q < m && !is_blank(s, data_lines(s)[q]) ==> #[trigger] accepted(scan(s).0, q)),
{
    lemma_scan_from_facts(s, data_lines(s), 0);
}

/// An accepted row is the line it names: line `row.row` of the file
/// (the header being line 1) has exactly `FIELDS` comma-separated
/// fields, the first reads as the row's label, and the pixel spans are
/// the other fields in order.
pub proof fn lemma_row_is_its_line(s: Seq<u8>, i: int, row: CsvRow)
    requires
        0 <= i < scan(s).0.len(),
        row_matches(s, scan(s).0[i], row),
    ensures
        2 <= row.row <= lines(s).len(),
        fields(s, lines(s)[row.row - 1].0, lines(s)[row.row - 1].1).len() == FIELDS,
        is_usize_text(
            s,
            fields(s, lines(s)[row.row - 1].0, lines(s)[row.row - 1].1)[0].0,
            fields(s, lines(s)[row.row - 1].0, lines(s)[row.row - 1].1)[0].1,
        ),
        row.label == usize_text_value(
            s,
            fields(s, lines(s)[row.row - 1].0, lines(s)[row.row - 1].1)[0].0,
            fields(s, lines(s)[row.row - 1].0, lines(s)[row.row - 1].1)[0].1,
        ),
        row.pixels@.len() == PIXELS,
        forall|p: int|
            0 <= p < PIXELS ==> (#[trigger] row.pixels@[p]).0 == fields(
                s,
                lines(s)[row.row - 1].0,
                lines(s)[row.row - 1].1,
            )[p + 1].0 && row.pixels@[p].1 == fields(
                s,
                lines(s)[row.row - 1].0,
                lines(s)[row.row - 1].1,
            )[p + 1].1,
{
    lemma_scan_from_facts(s, data_lines(s), 0);
    let k = scan(s).0[i];
    assert(0 <= k < data_lines(s).len());
    assert(lines(s).len() > 0);
    assert(data_lines(s)[k] == lines(s)[k + 1]);
    assert(row_fault(s, data_lines(s)[k], k + 2) is None);
}

} // verus!
