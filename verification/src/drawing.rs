//! The draw-and-predict grid: a 14 x 14 grid of cells edited by text
//! commands, and its upscaling to the 28 x 28 pixels the network reads
//! (each cell becomes a 2 x 2 block).

use vstd::prelude::*;
use crate::text::{tokens, text_of, is_usize_text, usize_text_value, split_tokens, parse_usize, span_equals};
use crate::text::{spaces, number_field, push_spaces, push_number_field};
use crate::text::{lines, lines_scan, line_block, clean_line, plain_byte, lemma_line_block_concat, lemma_lines_of_block};
use crate::report::{tidy, star, field_reads_as, pow10, lemma_tidy_concat, lemma_block_one, lemma_number_field_shape};
use crate::report::{lemma_decimal_len, lemma_field_at};
use crate::text::{decimal, joined, plain_word, lemma_tokens_of_words, lemma_decimal_plain, lemma_decimal_reads_back};

verus! {

/// Side of the grid the user draws on.
pub const COARSE_SIZE: usize = 14;

/// Side of the image the network reads.
pub const FULL_SIZE: usize = 28;

/// Pixels per cell along each side.
pub const SCALE: usize = 2;

/// A command typed at the prompt.
#[derive(Debug, Clone, Copy, PartialEq, Eq, Structural)]
pub enum Command {
    /// `toggle <row> <col>`: flip a cell.
    Toggle { row: usize, col: usize },
    /// `fill <row> <col>`: turn a cell on.
    Fill { row: usize, col: usize },
    /// `clear`: turn every cell off.
    Clear,
    /// `predict`: run the network on the drawing.
    Predict,
    /// `quit`: leave the demo.
    Quit,
    /// `toggle` with two words that are not both numbers.
    ToggleUsage,
    /// `fill` with two words that are not both numbers.
    FillUsage,
    /// Anything else.
    Unrecognized,
}

/// What the demo does after a command.
#[derive(Debug, Clone, Copy, PartialEq, Eq, Structural)]
pub enum Reply {
    /// The grid may have changed; show it again.
    Updated,
    /// The coordinates were outside the grid; nothing changed.
    OutOfRange,
    /// Show how to use `toggle`.
    ToggleUsage,
    /// Show how to use `fill`.
    FillUsage,
    /// The grid was cleared.
    Cleared,
    /// Predict the class of the drawing.
    Predict,
    /// Leave the demo.
    Quit,
    /// The command was not understood.
    Unrecognized,
}

pub open spec fn word_toggle() -> Seq<u8> {
    seq![0x74u8, 0x6f, 0x67, 0x67, 0x6c, 0x65]
}

pub open spec fn word_fill() -> Seq<u8> {
    seq![0x66u8, 0x69, 0x6c, 0x6c]
}

pub open spec fn word_clear() -> Seq<u8> {
    seq![0x63u8, 0x6c, 0x65, 0x61, 0x72]
}

pub open spec fn word_predict() -> Seq<u8> {
    seq![0x70u8, 0x72, 0x65, 0x64, 0x69, 0x63, 0x74]
}

pub open spec fn word_quit() -> Seq<u8> {
    seq![0x71u8, 0x75, 0x69, 0x74]
}

/// A two-number command (`toggle` or `fill`) read from its words.
pub open spec fn coordinates(s: Seq<u8>, t: Seq<(int, int)>) -> Option<(usize, usize)> {
    if is_usize_text(s, t[1].0, t[1].1) && is_usize_text(s, t[2].0, t[2].1) {
        Some(
            (
                usize_text_value(s, t[1].0, t[1].1) as usize,
                usize_text_value(s, t[2].0, t[2].1) as usize,
            ),
        )
    } else {
        None
    }
}

/// The command on the input line `s`, read from its whitespace-separated
/// words.
pub open spec fn command_of(s: Seq<u8>) -> Command {
    let t = tokens(s, 0, s.len() as int);
    if t.len() == 3 && text_of(s, t[0]) == word_toggle() {
        match coordinates(s, t) {
            Some(rc) => Command::Toggle { row: rc.0, col: rc.1 },
            None => Command::ToggleUsage,
        }
    } else if t.len() == 3 && text_of(s, t[0]) == word_fill() {
        match coordinates(s, t) {
            Some(rc) => Command::Fill { row: rc.0, col: rc.1 },
            None => Command::FillUsage,
        }
    } else if t.len() == 1 && text_of(s, t[0]) == word_clear() {
        Command::Clear
    } else if t.len() == 1 && text_of(s, t[0]) == word_predict() {
        Command::Predict
    } else if t.len() == 1 && text_of(s, t[0]) == word_quit() {
        Command::Quit
    } else {
        Command::Unrecognized
    }
}

/// Reads the command on an input line.
pub fn parse_command(line: &[u8]) -> (cmd: Command)
    ensures
        cmd == command_of(line@),
{
    let t = split_tokens(line, 0, line.len());
    let toggle = vec![0x74u8, 0x6f, 0x67, 0x67, 0x6c, 0x65];
    let fill = vec![0x66u8, 0x69, 0x6c, 0x6c];
    let clear = vec![0x63u8, 0x6c, 0x65, 0x61, 0x72];
    let predict = vec![0x70u8, 0x72, 0x65, 0x64, 0x69, 0x63, 0x74];
    let quit = vec![0x71u8, 0x75, 0x69, 0x74];
    proof {
        assert(toggle@ =~= word_toggle());
        assert(fill@ =~= word_fill());
        assert(clear@ =~= word_clear());
        assert(predict@ =~= word_predict());
        assert(quit@ =~= word_quit());
    }
    let ghost ts = tokens(line@, 0, line@.len() as int);
    if t.len() == 3 {
        let is_toggle = span_equals(line, t[0].0, t[0].1, &toggle);
        let is_fill = span_equals(line, t[0].0, t[0].1, &fill);
        if is_toggle || is_fill {
            let row = parse_usize(line, t[1].0, t[1].1);
            let col = parse_usize(line, t[2].0, t[2].1);
            proof {
                assert(t@[1].0 == ts[1].0 && t@[1].1 == ts[1].1);
                assert(t@[2].0 == ts[2].0 && t@[2].1 == ts[2].1);
            }
            return match (row, col) {
                (Some(r), Some(c)) => if is_toggle {
                    Command::Toggle { row: r, col: c }
                } else {
                    Command::Fill { row: r, col: c }
                },
                _ => if is_toggle {
                    Command::ToggleUsage
                } else {
                    Command::FillUsage
                },
            };
        }
        return Command::Unrecognized;
    }
    if t.len() == 1 {
        if span_equals(line, t[0].0, t[0].1, &clear) {
            return Command::Clear;
        }
        if span_equals(line, t[0].0, t[0].1, &predict) {
            return Command::Predict;
        }
        if span_equals(line, t[0].0, t[0].1, &quit) {
            return Command::Quit;
        }
    }
    Command::Unrecognized
}

/// `grid` is a `COARSE_SIZE` x `COARSE_SIZE` grid.
pub open spec fn is_square_grid(grid: Seq<Vec<bool>>) -> bool {
    &&& grid.len() == COARSE_SIZE
    &&& forall|r: int| 0 <= r < COARSE_SIZE ==> (#[trigger] grid[r])@.len() == COARSE_SIZE
}

/// Cell (r, c) of a grid.
pub open spec fn cell_at(grid: Seq<Vec<bool>>, r: int, c: int) -> bool {
    grid[r]@[c]
}

/// An empty grid: every cell off.
pub fn new_grid() -> (grid: Vec<Vec<bool>>)
    ensures
        is_square_grid(grid@),
        forall|r: int, c: int|
            0 <= r < COARSE_SIZE && 0 <= c < COARSE_SIZE ==> !#[trigger] cell_at(grid@, r, c),
{
    let mut grid: Vec<Vec<bool>> = Vec::new();
    let mut r: usize = 0;
    while r < COARSE_SIZE
        invariant
            r <= COARSE_SIZE,
            grid@.len() == r,
            forall|i: int| 0 <= i < r ==> (#[trigger] grid@[i])@.len() == COARSE_SIZE,
            forall|i: int, c: int| 0 <= i < r && 0 <= c < COARSE_SIZE ==> !#[trigger] cell_at(grid@, i, c),
        decreases COARSE_SIZE - r,
    {
        let mut row: Vec<bool> = Vec::new();
        let mut c: usize = 0;
        while c < COARSE_SIZE
            invariant
                c <= COARSE_SIZE,
                row@.len() == c,
                forall|j: int| 0 <= j < c ==> !#[trigger] row@[j],
            decreases COARSE_SIZE - c,
        {
            row.push(false);
            c = c + 1;
        }
        let ghost before = grid@;
        let ghost fresh = row@;
        grid.push(row);
        proof {
            assert forall|i: int, c: int| 0 <= i < r + 1 && 0 <= c < COARSE_SIZE implies !#[trigger] cell_at(
                grid@,
                i,
                c,
            ) by {
                if i < r {
                    assert(grid@[i] == before[i]);
                    assert(!cell_at(before, i, c));
                } else {
                    assert(grid@[i]@ == fresh);
                    assert(!fresh[c]);
                }
            }
        }
        r = r + 1;
    }
    grid
}

/// What the demo does after `cmd`.
pub open spec fn reply_to(cmd: Command) -> Reply {
    match cmd {
        Command::Toggle { row, col } => if row < COARSE_SIZE && col < COARSE_SIZE {
            Reply::Updated
        } else {
            Reply::OutOfRange
        },
        Command::Fill { row, col } => if row < COARSE_SIZE && col < COARSE_SIZE {
            Reply::Updated
        } else {
            Reply::OutOfRange
        },
        Command::Clear => Reply::Cleared,
        Command::Predict => Reply::Predict,
        Command::Quit => Reply::Quit,
        Command::ToggleUsage => Reply::ToggleUsage,
        Command::FillUsage => Reply::FillUsage,
        Command::Unrecognized => Reply::Unrecognized,
    }
}

/// Cell (r, c) after `cmd`, when it was `was` before.
pub open spec fn cell_after(cmd: Command, was: bool, r: int, c: int) -> bool {
    match cmd {
        Command::Toggle { row, col } => if r == row && c == col {
            !was
        } else {
            was
        },
        Command::Fill { row, col } => (r == row && c == col) || was,
        Command::Clear => false,
        _ => was,
    }
}

/// A toggle changes exactly one cell, the one it names: a cell of the
/// grid differs from what it was if and only if it is that cell.
pub proof fn lemma_toggle_changes_only_its_cell(row: usize, col: usize, was: bool, r: int, c: int)
    ensures
        cell_after(Command::Toggle { row, col }, was, r, c) != was <==> (r == row && c == col),
{
}

/// A fill turns on the cell it names and leaves every other cell as it
/// was, so earlier drawing survives it.
pub proof fn lemma_fill_sets_only_its_cell(row: usize, col: usize, was: bool, r: int, c: int)
    ensures
        r == row && c == col ==> cell_after(Command::Fill { row, col }, was, r, c),
        !(r == row && c == col) ==> cell_after(Command::Fill { row, col }, was, r, c) == was,
{
}

/// Two fills keep both cells on: the second does not undo the first.
pub proof fn lemma_fills_accumulate(
    first: (usize, usize),
    second: (usize, usize),
    was: bool,
    r: int,
    c: int,
)
    requires
        (r == first.0 && c == first.1) || (r == second.0 && c == second.1),
    ensures
        cell_after(
            Command::Fill { row: second.0, col: second.1 },
            cell_after(Command::Fill { row: first.0, col: first.1 }, was, r, c),
            r,
            c,
        ),
{
}

/// Toggling the same cell twice leaves every cell as it was.
pub proof fn lemma_toggle_twice_restores(row: usize, col: usize, was: bool, r: int, c: int)
    ensures
        cell_after(
            Command::Toggle { row, col },
            cell_after(Command::Toggle { row, col }, was, r, c),
            r,
            c,
        ) == was,
{
}

/// Filling a cell a second time changes nothing.
pub proof fn lemma_fill_twice_is_fill_once(row: usize, col: usize, was: bool, r: int, c: int)
    ensures
        cell_after(Command::Fill { row, col }, cell_after(Command::Fill { row, col }, was, r, c), r, c)
            == cell_after(Command::Fill { row, col }, was, r, c),
{
}

/// A command that leaves the grid alone (anything but toggle, fill and
/// clear), or a toggle or fill outside the grid, changes no cell.
pub proof fn lemma_other_commands_keep_cells(cmd: Command, was: bool, r: int, c: int)
    requires
        0 <= r < COARSE_SIZE,
        0 <= c < COARSE_SIZE,
        reply_to(cmd) != Reply::Updated,
        reply_to(cmd) != Reply::Cleared,
    ensures
        cell_after(cmd, was, r, c) == was,
{
}

/// Carries out a command on the grid and says what to do next.
pub fn apply_command(grid: &mut Vec<Vec<bool>>, cmd: Command) -> (reply: Reply)
    requires
        is_square_grid(old(grid)@),
    ensures
        is_square_grid(final(grid)@),
        reply == reply_to(cmd),
        forall|r: int, c: int|
            0 <= r < COARSE_SIZE && 0 <= c < COARSE_SIZE ==> #[trigger] cell_at(final(grid)@, r, c)
                == cell_after(cmd, cell_at(old(grid)@, r, c), r, c),
        cmd matches Command::Toggle { row, col } ==> forall|r: int, c: int|
            0 <= r < COARSE_SIZE && 0 <= c < COARSE_SIZE ==> (#[trigger] cell_at(final(grid)@, r, c)
                != cell_at(old(grid)@, r, c) <==> r == row && c == col),
        cmd matches Command::Fill { row, col } ==> forall|r: int, c: int|
            0 <= r < COARSE_SIZE && 0 <= c < COARSE_SIZE ==> #[trigger] cell_at(final(grid)@, r, c)
                == if r == row && c == col {
                true
            } else {
                cell_at(old(grid)@, r, c)
            },
        cmd is Clear ==> forall|r: int, c: int|
            0 <= r < COARSE_SIZE && 0 <= c < COARSE_SIZE ==> !#[trigger] cell_at(final(grid)@, r, c),
        !(cmd is Toggle || cmd is Fill || cmd is Clear) ==> final(grid)@ == old(grid)@,
{
    match cmd {
        Command::Toggle { row, col } => {
            if row < COARSE_SIZE && col < COARSE_SIZE {
                set_cell(grid, row, col, !grid[row][col]);
                Reply::Updated
            } else {
                Reply::OutOfRange
            }
        },
        Command::Fill { row, col } => {
            if row < COARSE_SIZE && col < COARSE_SIZE {
                set_cell(grid, row, col, true);
                Reply::Updated
            } else {
                Reply::OutOfRange
            }
        },
        Command::Clear => {
            *grid = new_grid();
            Reply::Cleared
        },
        Command::Predict => Reply::Predict,
        Command::Quit => Reply::Quit,
        Command::ToggleUsage => Reply::ToggleUsage,
        Command::FillUsage => Reply::FillUsage,
        Command::Unrecognized => Reply::Unrecognized,
    }
}

fn set_cell(grid: &mut Vec<Vec<bool>>, row: usize, col: usize, value: bool)
    requires
        is_square_grid(old(grid)@),
        row < COARSE_SIZE,
        col < COARSE_SIZE,
    ensures
        is_square_grid(final(grid)@),
        forall|r: int, c: int|
            0 <= r < COARSE_SIZE && 0 <= c < COARSE_SIZE ==> #[trigger] cell_at(final(grid)@, r, c)
                == if r == row && c == col {
                value
            } else {
                cell_at(old(grid)@, r, c)
            },
{
    let mut line = grid[row].clone();
    line.set(col, value);
    grid.set(row, line);
}

/// The 28 x 28 image of a grid, row-major: pixel (r, c) is on when
/// cell (r / 2, c / 2) is.
pub fn grid_pixels(grid: &Vec<Vec<bool>>) -> (pixels: Vec<bool>)
    requires
        grid@.len() >= COARSE_SIZE,
        forall|r: int| 0 <= r < COARSE_SIZE ==> (#[trigger] grid@[r])@.len() >= COARSE_SIZE,
    ensures
        pixels@.len() == FULL_SIZE * FULL_SIZE,
        forall|r: int, c: int|
            0 <= r < FULL_SIZE && 0 <= c < FULL_SIZE ==> #[trigger] pixels@[r * FULL_SIZE + c]
                == cell_at(grid@, r / 2, c / 2),
{
    let mut pixels: Vec<bool> = Vec::new();
    let mut r: usize = 0;
    while r < FULL_SIZE
        invariant
            r <= FULL_SIZE,
            grid@.len() >= COARSE_SIZE,
            forall|i: int| 0 <= i < COARSE_SIZE ==> (#[trigger] grid@[i])@.len() >= COARSE_SIZE,
            pixels@.len() == r * FULL_SIZE,
            forall|i: int, c: int|
                0 <= i < r && 0 <= c < FULL_SIZE ==> #[trigger] pixels@[i * FULL_SIZE + c]
                    == cell_at(grid@, i / 2, c / 2),
        decreases FULL_SIZE - r,
    {
        let mut c: usize = 0;
        while c < FULL_SIZE
            invariant
                r < FULL_SIZE,
                c <= FULL_SIZE,
                grid@.len() >= COARSE_SIZE,
                forall|i: int| 0 <= i < COARSE_SIZE ==> (#[trigger] grid@[i])@.len() >= COARSE_SIZE,
                pixels@.len() == r * FULL_SIZE + c,
                forall|i: int, j: int|
                    0 <= i < r && 0 <= j < FULL_SIZE ==> #[trigger] pixels@[i * FULL_SIZE + j]
                        == cell_at(grid@, i / 2, j / 2),
                forall|j: int| 0 <= j < c ==> #[trigger] pixels@[r * FULL_SIZE + j] == cell_at(grid@, r as int / 2, j / 2),
            decreases FULL_SIZE - c,
        {
            let v = grid[r / SCALE][c / SCALE];
            pixels.push(v);
            c = c + 1;
        }
        r = r + 1;
    }
    pixels
}

/// The column numbers `0..c` of the grid display, two characters each.
pub open spec fn grid_header(c: int) -> Seq<u8>
    decreases c,
{
    if c <= 0 {
        seq![]
    } else {
        grid_header(c - 1) + number_field((c - 1) as nat, 2)
    }
}

/// A cell as displayed: a space, then `#` when on or `.` when off.
pub open spec fn cell_glyph(on: bool) -> Seq<u8> {
    if on {
        seq![0x20u8, 0x23]
    } else {
        seq![0x20u8, 0x2e]
    }
}

/// The first `k` cells of a row as displayed.
pub open spec fn row_glyphs(row: Seq<bool>, k: int) -> Seq<u8>
    decreases k,
{
    if k <= 0 {
        seq![]
    } else {
        row_glyphs(row, k - 1) + cell_glyph(row[k - 1])
    }
}

/// The display line of row `r`: its number, then its cells.
pub open spec fn grid_line(grid: Seq<Vec<bool>>, r: int) -> Seq<u8> {
    number_field(r as nat, 3) + seq![0x20u8] + row_glyphs(grid[r]@, grid[r]@.len() as int) + seq![
        0x0au8,
    ]
}

/// The display lines of rows `0..r`.
pub open spec fn grid_lines(grid: Seq<Vec<bool>>, r: int) -> Seq<u8>
    decreases r,
{
    if r <= 0 {
        seq![]
    } else {
        grid_lines(grid, r - 1) + grid_line(grid, r - 1)
    }
}

/// The grid as shown at the prompt: a header of column numbers, then
/// one line per row.
pub open spec fn grid_text(grid: Seq<Vec<bool>>) -> Seq<u8> {
    spaces(4) + grid_header(COARSE_SIZE as int) + seq![0x0au8] + grid_lines(grid, grid.len() as int)
}

/// Renders the grid for display (see `grid_text`).
pub fn render_grid(grid: &Vec<Vec<bool>>) -> (out: Vec<u8>)
    ensures
        out@ == grid_text(grid@),
{
    let mut out: Vec<u8> = Vec::new();
    push_spaces(&mut out, 4);
    let mut c: usize = 0;
    while c < COARSE_SIZE
        invariant
            c <= COARSE_SIZE,
            out@ == spaces(4) + grid_header(c as int),
        decreases COARSE_SIZE - c,
    {
        push_number_field(&mut out, c, 2);
        proof {
            assert(spaces(4) + grid_header(c + 1) =~= spaces(4) + grid_header(c as int) + number_field(
                c as nat,
                2,
            ));
        }
        c = c + 1;
    }
    out.push(0x0a);
    let ghost top = out@;
    let mut r: usize = 0;
    while r < grid.len()
        invariant
            r <= grid@.len(),
            out@ == top + grid_lines(grid@, r as int),
        decreases grid@.len() - r,
    {
        let ghost before = out@;
        push_number_field(&mut out, r, 3);
        out.push(0x20);
        let ghost start = out@;
        let row = &grid[r];
        let mut k: usize = 0;
        while k < row.len()
            invariant
                k <= row@.len(),
                row@ == grid@[r as int]@,
                out@ == start + row_glyphs(row@, k as int),
            decreases row@.len() - k,
        {
            out.push(0x20);
            if row[k] {
                out.push(0x23);
            } else {
                out.push(0x2e);
            }
            proof {
                assert(start + row_glyphs(row@, k + 1) =~= start + row_glyphs(row@, k as int)
                    + cell_glyph(row@[k as int]));
            }
            k = k + 1;
        }
        out.push(0x0a);
        proof {
            assert(out@ =~= before + grid_line(grid@, r as int));
            assert(top + grid_lines(grid@, r + 1) =~= top + grid_lines(grid@, r as int) + grid_line(
                grid@,
                r as int,
            ));
        }
        r = r + 1;
    }
    proof {
        assert(out@ =~= grid_text(grid@));
    }
    out
}

/// Row `r` as displayed, without its newline.
pub open spec fn grid_row_text(grid: Seq<Vec<bool>>, r: int) -> Seq<u8> {
    number_field(r as nat, 3) + seq![0x20u8] + row_glyphs(grid[r]@, grid[r]@.len() as int)
}

/// In the display `s` of a grid, cell (r, c) shows as `on`: on line
/// `1 + r`, after the four characters of the row number, the cell is a
/// space and then `#` when on or `.` when off.
pub open spec fn display_shows_cell(s: Seq<u8>, r: int, c: int, on: bool) -> bool {
    let line = lines(s)[1 + r];
    &&& line.1 - line.0 == 4 + 2 * COARSE_SIZE
    &&& s[line.0 + 4 + 2 * c] == 0x20
    &&& s[line.0 + 4 + 2 * c + 1] == if on {
        0x23u8
    } else {
        0x2eu8
    }
}

/// In the display `s` of a grid, line `1 + r` starts with the row
/// number `r`, right-aligned in three characters.
pub open spec fn display_numbers_row(s: Seq<u8>, r: int) -> bool {
    let line = lines(s)[1 + r];
    field_reads_as(s, line.0, line.0 + 3, r as nat, false)
}

proof fn lemma_row_glyphs(row: Seq<bool>, k: int)
    requires
        0 <= k <= row.len(),
    ensures
        row_glyphs(row, k).len() == 2 * k,
        tidy(row_glyphs(row, k)),
        forall|c: int|
            0 <= c < k ==> #[trigger] row_glyphs(row, k)[2 * c] == 0x20 && row_glyphs(row, k)[2 * c + 1]
                == if row[c] {
                0x23u8
            } else {
                0x2eu8
            },
    decreases k,
{
    if k > 0 {
        lemma_row_glyphs(row, k - 1);
        let prev = row_glyphs(row, k - 1);
        let g = cell_glyph(row[k - 1]);
        assert(tidy(g));
        lemma_tidy_concat(prev, g);
        let all = row_glyphs(row, k);
        assert(all == prev + g);
        assert forall|c: int| 0 <= c < k implies #[trigger] all[2 * c] == 0x20 && all[2 * c + 1] == if row[c] {
            0x23u8
        } else {
            0x2eu8
        } by {
            if c < k - 1 {
                assert(all[2 * c] == prev[2 * c]);
                assert(all[2 * c + 1] == prev[2 * c + 1]);
            } else {
                assert(all[2 * c] == g[0]);
                assert(all[2 * c + 1] == g[1]);
            }
        }
    }
}

proof fn lemma_grid_header_tidy(c: int)
    ensures
        tidy(grid_header(c)),
    decreases c,
{
    if c > 0 {
        lemma_grid_header_tidy(c - 1);
        lemma_number_field_shape((c - 1) as nat, 2, false);
        assert(number_field((c - 1) as nat, 2) + star(false) =~= number_field((c - 1) as nat, 2));
        lemma_tidy_concat(grid_header(c - 1), number_field((c - 1) as nat, 2));
    }
}

proof fn lemma_grid_lines_block(grid: Seq<Vec<bool>>, k: int)
    requires
        0 <= k <= grid.len(),
    ensures
        grid_lines(grid, k) == line_block(Seq::new(k as nat, |r: int| grid_row_text(grid, r))),
    decreases k,
{
    let rows = Seq::new(k as nat, |r: int| grid_row_text(grid, r));
    if k == 0 {
        assert(rows =~= Seq::<Seq<u8>>::empty());
    } else {
        let prev = Seq::new((k - 1) as nat, |r: int| grid_row_text(grid, r));
        lemma_grid_lines_block(grid, k - 1);
        assert(rows =~= prev + seq![grid_row_text(grid, k - 1)]);
        lemma_line_block_concat(prev, seq![grid_row_text(grid, k - 1)]);
        lemma_block_one(grid_row_text(grid, k - 1));
        assert(grid_line(grid, k - 1) =~= grid_row_text(grid, k - 1) + seq![0x0au8]);
    }
}

proof fn lemma_row_number_width(r: int)
    requires
        0 <= r < COARSE_SIZE,
    ensures
        number_field(r as nat, 3).len() == 3,
        tidy(number_field(r as nat, 3)),
{
    assert(pow10(2) == 100) by {
        assert(pow10(0) == 1);
        assert(pow10(1) == 10);
    }
    lemma_decimal_len(r as nat, 2);
    lemma_number_field_shape(r as nat, 3, false);
    assert(number_field(r as nat, 3) + star(false) =~= number_field(r as nat, 3));
}

/// The grid display shows the grid: after the header line there is one
/// line per row, starting with the row number, and each cell appears at
/// its place as `#` when on and `.` when off.
pub proof fn lemma_display_shows_grid(grid: Seq<Vec<bool>>)
    requires
        is_square_grid(grid),
    ensures
        lines(grid_text(grid)).len() == 1 + COARSE_SIZE,
        forall|r: int| 0 <= r < COARSE_SIZE ==> #[trigger] display_numbers_row(grid_text(grid), r),
        forall|r: int, c: int|
            0 <= r < COARSE_SIZE && 0 <= c < COARSE_SIZE ==> #[trigger] display_shows_cell(
                grid_text(grid),
                r,
                c,
                cell_at(grid, r, c),
            ),
{
    let s = grid_text(grid);
    let hdr = spaces(4) + grid_header(COARSE_SIZE as int);
    let rows = Seq::new(COARSE_SIZE as nat, |r: int| grid_row_text(grid, r));
    let cs = seq![hdr] + rows;
    lemma_grid_lines_block(grid, COARSE_SIZE as int);
    lemma_block_one(hdr);
    lemma_line_block_concat(seq![hdr], rows);
    assert(s =~= line_block(cs));
    lemma_grid_header_tidy(COARSE_SIZE as int);
    assert(tidy(spaces(4)));
    lemma_tidy_concat(spaces(4), grid_header(COARSE_SIZE as int));
    assert forall|k: int| 0 <= k < cs.len() implies clean_line(#[trigger] cs[k]) by {
        if k == 0 {
            assert(cs[k] == hdr);
            assert(hdr.last() == hdr[hdr.len() - 1]);
        } else {
            let r = k - 1;
            assert(cs[k] == grid_row_text(grid, r));
            assert(grid[r]@.len() == COARSE_SIZE);
            lemma_row_number_width(r);
            lemma_row_glyphs(grid[r]@, COARSE_SIZE as int);
            let a = number_field(r as nat, 3);
            let g = row_glyphs(grid[r]@, COARSE_SIZE as int);
            assert(tidy(seq![0x20u8]));
            lemma_tidy_concat(a, seq![0x20u8]);
            lemma_tidy_concat(a + seq![0x20u8], g);
            let t = grid_row_text(grid, r);
            assert(t =~= a + seq![0x20u8] + g);
            assert(t.last() == t[t.len() - 1]);
        }
    }
    assert(s.subrange(0, s.len() as int) =~= s);
    lemma_lines_of_block(s, 0, cs);
    assert(lines(s) == lines_scan(s, 0, 0));
    assert forall|r: int| 0 <= r < COARSE_SIZE implies #[trigger] display_numbers_row(s, r) by {
        assert(cs[1 + r] == grid_row_text(grid, r));
        lemma_row_number_width(r);
        let line = lines(s)[1 + r];
        let t = grid_row_text(grid, r);
        assert(s.subrange(line.0, line.1) == t);
        let a = number_field(r as nat, 3);
        assert(s.subrange(line.0, line.0 + 3) =~= a + star(false)) by {
            assert forall|b: int| 0 <= b < 3 implies s.subrange(line.0, line.0 + 3)[b] == (a + star(false))[b] by {
                assert(s.subrange(line.0, line.1)[b] == s[line.0 + b]);
                assert(t[b] == a[b]);
            }
        }
        lemma_field_at(s, line.0, line.0 + 3, r as usize, 3, false);
    }
    assert forall|r: int, c: int| 0 <= r < COARSE_SIZE && 0 <= c < COARSE_SIZE implies #[trigger] display_shows_cell(
        s,
        r,
        c,
        cell_at(grid, r, c),
    ) by {
        assert(cs[1 + r] == grid_row_text(grid, r));
        assert(grid[r]@.len() == COARSE_SIZE);
        lemma_row_number_width(r);
        lemma_row_glyphs(grid[r]@, COARSE_SIZE as int);
        let line = lines(s)[1 + r];
        let t = grid_row_text(grid, r);
        let g = row_glyphs(grid[r]@, COARSE_SIZE as int);
        assert(s.subrange(line.0, line.1) == t);
        assert(t =~= number_field(r as nat, 3) + seq![0x20u8] + g);
        assert(s.subrange(line.0, line.1)[4 + 2 * c] == s[line.0 + 4 + 2 * c]);
        assert(s.subrange(line.0, line.1)[4 + 2 * c + 1] == s[line.0 + 4 + 2 * c + 1]);
        assert(t[4 + 2 * c] == g[2 * c]);
        assert(t[4 + 2 * c + 1] == g[2 * c + 1]);
    }
}

proof fn lemma_joined_three(a: Seq<u8>, b: Seq<u8>, c: Seq<u8>)
    ensures
        joined(seq![a, b, c]) == a + seq![0x20u8] + b + seq![0x20u8] + c,
{
    let s3 = seq![a, b, c];
    let s2 = seq![a, b];
    let s1 = seq![a];
    assert(s3.drop_last() =~= s2);
    assert(s2.drop_last() =~= s1);
    assert(joined(s1) == a);
    assert(joined(s2) == joined(s1) + seq![0x20u8] + b);
    assert(joined(s3) == joined(s2) + seq![0x20u8] + c);
    assert(joined(s3) =~= a + seq![0x20u8] + b + seq![0x20u8] + c);
}

proof fn lemma_two_number_command(word: Seq<u8>, row: usize, col: usize)
    requires
        plain_word(word),
    ensures
        ({
            let s = word + seq![0x20u8] + decimal(row as nat) + seq![0x20u8] + decimal(col as nat);
            let t = tokens(s, 0, s.len() as int);
            &&& t.len() == 3
            &&& text_of(s, t[0]) == word
            &&& coordinates(s, t) == Some((row, col))
        }),
{
    let dr = decimal(row as nat);
    let dc = decimal(col as nat);
    let s = word + seq![0x20u8] + dr + seq![0x20u8] + dc;
    let ts = seq![word, dr, dc];
    lemma_joined_three(word, dr, dc);
    lemma_decimal_plain(row as nat);
    lemma_decimal_plain(col as nat);
    assert(s.subrange(0, s.len() as int) =~= joined(ts));
    assert forall|i: int| 0 <= i < ts.len() implies plain_word(#[trigger] ts[i]) by {}
    lemma_tokens_of_words(s, 0, s.len() as int, ts);
    let t = tokens(s, 0, s.len() as int);
    assert(t[1].0 <= t[1].1);
    assert(s.subrange(t[1].0, t[1].1) == ts[1]);
    assert(s.subrange(t[2].0, t[2].1) == ts[2]);
    lemma_decimal_reads_back(s, t[1].0, t[1].1, row);
    lemma_decimal_reads_back(s, t[2].0, t[2].1, col);
}

proof fn lemma_one_word_command(word: Seq<u8>)
    requires
        plain_word(word),
    ensures
        ({
            let t = tokens(word, 0, word.len() as int);
            t.len() == 1 && text_of(word, t[0]) == word
        }),
{
    let ts = seq![word];
    assert(joined(ts) == word);
    assert(word.subrange(0, word.len() as int) =~= joined(ts));
    assert forall|i: int| 0 <= i < ts.len() implies plain_word(#[trigger] ts[i]) by {}
    lemma_tokens_of_words(word, 0, word.len() as int, ts);
}

/// Every command typed in its usual form reads back as that command:
/// `toggle <row> <col>` and `fill <row> <col>` (numbers in decimal,
/// single spaces) with those coordinates in that order, and `clear`,
/// `predict` and `quit`.
pub proof fn lemma_commands_read_back(row: usize, col: usize)
    ensures
        command_of(
            seq![0x74u8, 0x6f, 0x67, 0x67, 0x6c, 0x65, 0x20] + decimal(row as nat) + seq![0x20u8]
                + decimal(col as nat),
        ) == (Command::Toggle { row, col }),
        command_of(seq![0x66u8, 0x69, 0x6c, 0x6c, 0x20] + decimal(row as nat) + seq![0x20u8] + decimal(
            col as nat,
        )) == (Command::Fill { row, col }),
        command_of(seq![0x63u8, 0x6c, 0x65, 0x61, 0x72]) == Command::Clear,
        command_of(seq![0x70u8, 0x72, 0x65, 0x64, 0x69, 0x63, 0x74]) == Command::Predict,
        command_of(seq![0x71u8, 0x75, 0x69, 0x74]) == Command::Quit,
{
    let toggle = seq![0x74u8, 0x6f, 0x67, 0x67, 0x6c, 0x65];
    let fill = seq![0x66u8, 0x69, 0x6c, 0x6c];
    let clear = seq![0x63u8, 0x6c, 0x65, 0x61, 0x72];
    let predict = seq![0x70u8, 0x72, 0x65, 0x64, 0x69, 0x63, 0x74];
    let quit = seq![0x71u8, 0x75, 0x69, 0x74];
    assert(plain_word(toggle));
    assert(plain_word(fill));
    assert(plain_word(clear));
    assert(plain_word(predict));
    assert(plain_word(quit));
    assert(toggle =~= word_toggle());
    assert(fill =~= word_fill());
    assert(clear =~= word_clear());
    assert(predict =~= word_predict());
    assert(quit =~= word_quit());
    lemma_two_number_command(toggle, row, col);
    lemma_two_number_command(fill, row, col);
    assert(seq![0x74u8, 0x6f, 0x67, 0x67, 0x6c, 0x65, 0x20] =~= toggle + seq![0x20u8]);
    assert(seq![0x66u8, 0x69, 0x6c, 0x6c, 0x20] =~= fill + seq![0x20u8]);
    assert(fill != word_toggle()) by {
        assert(fill.len() != word_toggle().len());
    }
    lemma_one_word_command(clear);
    lemma_one_word_command(predict);
    lemma_one_word_command(quit);
    assert(clear.subrange(0, 5) =~= clear);
    assert(predict.subrange(0, 7) =~= predict);
    assert(quit.subrange(0, 4) =~= quit);
    assert(predict != word_clear()) by {
        assert(predict.len() != word_clear().len());
    }
    assert(quit != word_clear()) by {
        assert(quit.len() != word_clear().len());
    }
    assert(quit != word_predict()) by {
        assert(quit.len() != word_predict().len());
    }
}

} // verus!
