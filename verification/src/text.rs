//! Reading a grid from text and rendering a grid as text. The parser keeps
//! only digit and `.` characters (anything else is ignored), demands exactly
//! 81 of them, and fills the grid in row-major order; the renderer prints
//! the 81 cells with box separators so that parsing its output yields the
//! original grid back.

use vstd::prelude::*;
use vstd::string::StrSliceExecFns;
use crate::board::cell_index;
use crate::grid::Grid;

verus! {

/// A character the parser keeps: a digit or the `.` placeholder.
pub open spec fn is_symbol(c: char) -> bool {
    c == '.' || (48 <= c as u32 && c as u32 <= 57)
}

/// The cell value a kept character stands for: `.` and `0` mean the empty
/// cell, a digit its value.
pub open spec fn symbol_value(c: char) -> u8 {
    if c == '.' {
        0
    } else {
        (c as u32 - 48) as u8
    }
}

/// The cell values of the kept characters of `s`, in order.
pub open spec fn extract(s: Seq<char>) -> Seq<u8>
    decreases s.len(),
{
    if s.len() == 0 {
        seq![]
    } else {
        extract(s.drop_last()) + if is_symbol(s.last()) {
            seq![symbol_value(s.last())]
        } else {
            seq![]
        }
    }
}

/// Builds a grid from text: every character that is not a digit or `.` is
/// ignored; the remaining symbols must number exactly 81 and fill the grid
/// row by row, `.` and `0` marking empty cells. Returns `None` iff the
/// symbol count is not 81.
pub fn parse_grid(text: &str) -> (r: Option<Grid>)
    ensures
        (r is Some) <==> extract(text@).len() == 81,
        r matches Some(g) ==> g.wf() && g@ == extract(text@),
{
    let n = text.unicode_len();
    let mut vals: Vec<u8> = Vec::new();
    let mut i: usize = 0;
    proof {
        assert(text@.take(0) =~= Seq::<char>::empty());
        assert(extract(text@.take(0)) =~= Seq::<u8>::empty());
    }
    while i < n
        invariant
            n == text@.len(),
            i <= n,
            vals@ == extract(text@.take(i as int)),
            forall|j: int| 0 <= j < vals@.len() ==> vals@[j] <= 9,
        decreases n - i,
    {
        let c = text.get_char(i);
        if c == '.' {
            vals.push(0);
        } else {
            let u = c as u32;
            if 48 <= u && u <= 57 {
                vals.push((u - 48) as u8);
            }
        }
        proof {
            let t = text@.take(i as int + 1);
            assert(t.drop_last() =~= text@.take(i as int));
            assert(t.last() == text@[i as int]);
            assert(vals@ =~= extract(t));
        }
        i = i + 1;
    }
    proof {
        assert(text@.take(n as int) =~= text@);
    }
    if vals.len() == 81 {
        Some(Grid::new(vals.as_slice()))
    } else {
        None
    }
}

/// Relies on `String::push`: appends exactly the one character to the end
/// of the string.
#[verifier::external_body]
fn push_char(out: &mut String, c: char)
    ensures
        final(out)@ == old(out)@.push(c),
{
    out.push(c);
}

/// Appends a character the parser ignores, leaving the extracted cell
/// values unchanged.
fn push_plain(out: &mut String, c: char)
    requires
        !is_symbol(c),
    ensures
        final(out)@ == old(out)@.push(c),
        extract(final(out)@) == extract(old(out)@),
{
    push_char(out, c);
    proof {
        assert(old(out)@.push(c).drop_last() =~= old(out)@);
    }
}

/// The character a cell is printed as: its digit, or `.` for the empty
/// cell.
pub open spec fn symbol_char(v: u8) -> char {
    if v == 1 {
        '1'
    } else if v == 2 {
        '2'
    } else if v == 3 {
        '3'
    } else if v == 4 {
        '4'
    } else if v == 5 {
        '5'
    } else if v == 6 {
        '6'
    } else if v == 7 {
        '7'
    } else if v == 8 {
        '8'
    } else if v == 9 {
        '9'
    } else {
        '.'
    }
}

/// `n` dashes.
pub open spec fn dashes(n: int) -> Seq<char>
    decreases n,
{
    if n <= 0 {
        seq![]
    } else {
        dashes(n - 1).push('-')
    }
}

/// The horizontal box separator line, newline included.
pub open spec fn sep_chars() -> Seq<char> {
    seq!['+'] + dashes(6) + seq!['+'] + dashes(6) + seq!['+'] + dashes(5) + seq!['+', '\n']
}

/// The characters of row `y` emitted for the cells left of column `x`: a
/// `|` before columns 0, 3 and 6, each cell's character, and a space after
/// every cell but the last.
pub open spec fn row_cells(b: Seq<u8>, y: int, x: int) -> Seq<char>
    decreases x,
{
    if x <= 0 {
        seq![]
    } else {
        row_cells(b, y, x - 1) + (if (x - 1) % 3 == 0 {
            seq!['|']
        } else {
            seq![]
        }) + seq![symbol_char(b[cell_index(x - 1, y)])] + (if x - 1 < 8 {
            seq![' ']
        } else {
            seq![]
        })
    }
}

/// One full rendered row, closing `|` and newline included.
pub open spec fn row_chars(b: Seq<u8>, y: int) -> Seq<char> {
    row_cells(b, y, 9) + seq!['|', '\n']
}

/// The rendered rows above row `y`, with a separator line before rows 0,
/// 3 and 6.
pub open spec fn rows_chars(b: Seq<u8>, y: int) -> Seq<char>
    decreases y,
{
    if y <= 0 {
        seq![]
    } else {
        rows_chars(b, y - 1) + (if (y - 1) % 3 == 0 {
            sep_chars()
        } else {
            seq![]
        }) + row_chars(b, y - 1)
    }
}

/// The complete rendered text of a board.
pub open spec fn render_chars(b: Seq<u8>) -> Seq<char> {
    rows_chars(b, 9) + sep_chars()
}

/// Appends the character of a cell value: its digit, or `.` for the empty
/// cell, extending the extracted cell values by exactly that value.
fn push_symbol(out: &mut String, v: u8)
    requires
        v <= 9,
    ensures
        final(out)@ == old(out)@.push(symbol_char(v)),
        extract(final(out)@) == extract(old(out)@) + seq![v],
{
    let c: char = match v {
        1 => '1',
        2 => '2',
        3 => '3',
        4 => '4',
        5 => '5',
        6 => '6',
        7 => '7',
        8 => '8',
        9 => '9',
        _ => '.',
    };
    proof {
        assert(c == symbol_char(v));
        assert(is_symbol(c) && symbol_value(c) == v);
    }
    push_char(out, c);
    proof {
        assert(old(out)@.push(c).drop_last() =~= old(out)@);
    }
}

/// Appends the horizontal box separator line.
fn push_separator(out: &mut String)
    ensures
        final(out)@ == old(out)@ + sep_chars(),
        extract(final(out)@) == extract(old(out)@),
{
    push_plain(out, '+');
    proof {
        assert(out@ =~= old(out)@ + seq!['+'] + dashes(0));
    }
    let mut k: usize = 0;
    while k < 6
        invariant
            k <= 6,
            out@ == old(out)@ + seq!['+'] + dashes(k as int),
            extract(out@) == extract(old(out)@),
        decreases 6 - k,
    {
        push_plain(out, '-');
        proof {
            assert(out@ =~= old(out)@ + seq!['+'] + dashes(k as int + 1));
        }
        k = k + 1;
    }
    push_plain(out, '+');
    proof {
        assert(out@ =~= old(out)@ + seq!['+'] + dashes(6) + seq!['+'] + dashes(0));
    }
    let mut k2: usize = 0;
    while k2 < 6
        invariant
            k2 <= 6,
            out@ == old(out)@ + seq!['+'] + dashes(6) + seq!['+'] + dashes(k2 as int),
            extract(out@) == extract(old(out)@),
        decreases 6 - k2,
    {
        push_plain(out, '-');
        proof {
            assert(out@ =~= old(out)@ + seq!['+'] + dashes(6) + seq!['+'] + dashes(k2 as int + 1));
        }
        k2 = k2 + 1;
    }
    push_plain(out, '+');
    proof {
        assert(out@ =~= old(out)@ + seq!['+'] + dashes(6) + seq!['+'] + dashes(6) + seq!['+']
            + dashes(0));
    }
    let mut k3: usize = 0;
    while k3 < 5
        invariant
            k3 <= 5,
            out@ == old(out)@ + seq!['+'] + dashes(6) + seq!['+'] + dashes(6) + seq!['+'] + dashes(
                k3 as int,
            ),
            extract(out@) == extract(old(out)@),
        decreases 5 - k3,
    {
        push_plain(out, '-');
        proof {
            assert(out@ =~= old(out)@ + seq!['+'] + dashes(6) + seq!['+'] + dashes(6) + seq!['+']
                + dashes(k3 as int + 1));
        }
        k3 = k3 + 1;
    }
    push_plain(out, '+');
    push_plain(out, '\n');
    proof {
        assert(out@ =~= old(out)@ + sep_chars());
    }
}

/// Renders the grid as a fixed-width text block: a separator line before
/// rows 0, 3 and 6 and after row 8, a `|` before columns 0, 3 and 6 and at
/// each line's end, every cell as its digit or `.`, space-separated. The
/// kept symbols of the output are exactly the 81 cells in row-major order,
/// so parsing the rendered text yields the grid back.
pub fn render_grid(grid: &Grid) -> (r: String)
    requires
        grid.wf(),
    ensures
        r@ == render_chars(grid@),
        extract(r@) == grid@,
{
    let mut out = String::new();
    proof {
        assert(extract(out@) =~= grid@.take(0));
        assert(out@ =~= rows_chars(grid@, 0));
    }
    let mut y: usize = 0;
    while y < 9
        invariant
            grid.wf(),
            y <= 9,
            out@ == rows_chars(grid@, y as int),
            extract(out@) == grid@.take(9 * y as int),
        decreases 9 - y,
    {
        let ghost yi: int = y as int;
        let ghost sep_part: Seq<char> = if yi % 3 == 0 {
            sep_chars()
        } else {
            seq![]
        };
        if y % 3 == 0 {
            push_separator(&mut out);
        }
        proof {
            assert(out@ =~= rows_chars(grid@, yi) + sep_part + row_cells(grid@, yi, 0));
        }
        let mut x: usize = 0;
        while x < 9
            invariant
                grid.wf(),
                y < 9,
                x <= 9,
                yi == y as int,
                sep_part == (if yi % 3 == 0 {
                    sep_chars()
                } else {
                    seq![]
                }),
                out@ == rows_chars(grid@, yi) + sep_part + row_cells(grid@, yi, x as int),
                extract(out@) == grid@.take(9 * y as int + x as int),
            decreases 9 - x,
        {
            if x % 3 == 0 {
                push_plain(&mut out, '|');
            }
            let v = grid.get(x, y);
            push_symbol(&mut out, v);
            if x < 8 {
                push_plain(&mut out, ' ');
            }
            proof {
                assert(out@ =~= rows_chars(grid@, yi) + sep_part + row_cells(
                    grid@,
                    yi,
                    x as int + 1,
                ));
                assert(extract(out@) =~= grid@.take(9 * y as int + x as int + 1));
            }
            x = x + 1;
        }
        push_plain(&mut out, '|');
        push_plain(&mut out, '\n');
        proof {
            assert(out@ =~= rows_chars(grid@, yi) + sep_part + row_chars(grid@, yi));
            assert(out@ =~= rows_chars(grid@, yi + 1));
        }
        y = y + 1;
    }
    push_separator(&mut out);
    proof {
        assert(out@ =~= render_chars(grid@));
        assert(grid@.take(81) =~= grid@);
    }
    out
}

/// What one character contributes to the extracted cell values.
proof fn lemma_extract_one(c: char)
    ensures
        extract(seq![c]) == if is_symbol(c) {
            seq![symbol_value(c)]
        } else {
            Seq::<u8>::empty()
        },
{
    assert(seq![c].drop_last() =~= Seq::<char>::empty());
    assert(extract(Seq::<char>::empty()) =~= Seq::<u8>::empty());
    if is_symbol(c) {
        assert(extract(seq![c]) =~= seq![symbol_value(c)]);
    } else {
        assert(extract(seq![c]) =~= Seq::<u8>::empty());
    }
}

/// Extraction distributes over concatenation.
proof fn lemma_extract_append(a: Seq<char>, c: Seq<char>)
    ensures
        extract(a + c) == extract(a) + extract(c),
    decreases c.len(),
{
    if c.len() == 0 {
        assert(a + c =~= a);
        assert(extract(c) =~= Seq::<u8>::empty());
        assert(extract(a) + extract(c) =~= extract(a));
    } else {
        lemma_extract_append(a, c.drop_last());
        assert((a + c).drop_last() =~= a + c.drop_last());
        assert((a + c).last() == c.last());
        if is_symbol(c.last()) {
            assert(extract(a + c) =~= extract(a) + extract(c));
        } else {
            assert(extract(a + c) =~= extract(a) + extract(c));
        }
    }
}

/// A run of dashes holds no cell symbol.
proof fn lemma_extract_dashes(n: int)
    ensures
        extract(dashes(n)) == Seq::<u8>::empty(),
    decreases n,
{
    if n <= 0 {
        assert(extract(dashes(n)) =~= Seq::<u8>::empty());
    } else {
        lemma_extract_dashes(n - 1);
        assert(dashes(n).drop_last() =~= dashes(n - 1));
        assert(extract(dashes(n)) =~= Seq::<u8>::empty());
    }
}

/// The separator line holds no cell symbol.
proof fn lemma_extract_sep()
    ensures
        extract(sep_chars()) == Seq::<u8>::empty(),
{
    lemma_extract_dashes(6);
    lemma_extract_dashes(5);
    lemma_extract_one('+');
    lemma_extract_one('\n');
    lemma_extract_append(seq!['+'], dashes(6));
    lemma_extract_append(seq!['+'] + dashes(6), seq!['+']);
    lemma_extract_append(seq!['+'] + dashes(6) + seq!['+'], dashes(6));
    lemma_extract_append(seq!['+'] + dashes(6) + seq!['+'] + dashes(6), seq!['+']);
    lemma_extract_append(seq!['+'] + dashes(6) + seq!['+'] + dashes(6) + seq!['+'], dashes(5));
    lemma_extract_append(
        seq!['+'] + dashes(6) + seq!['+'] + dashes(6) + seq!['+'] + dashes(5),
        seq!['+', '\n'],
    );
    assert(seq!['+', '\n'] =~= seq!['+'] + seq!['\n']);
    lemma_extract_append(seq!['+'], seq!['\n']);
    assert(extract(sep_chars()) =~= Seq::<u8>::empty());
}

/// The printed character of a cell value extracts back to that value.
proof fn lemma_symbol_char_value(v: u8)
    requires
        v <= 9,
    ensures
        is_symbol(symbol_char(v)),
        symbol_value(symbol_char(v)) == v,
{
}

/// The cells printed for one row extract to exactly those cells.
proof fn lemma_extract_row_cells(b: Seq<u8>, y: int, x: int)
    requires
        b.len() == 81,
        forall|i: int| 0 <= i < 81 ==> b[i] <= 9,
        0 <= y < 9,
        0 <= x <= 9,
    ensures
        extract(row_cells(b, y, x)) == b.subrange(9 * y, 9 * y + x),
    decreases x,
{
    if x <= 0 {
        assert(extract(row_cells(b, y, x)) =~= b.subrange(9 * y, 9 * y + x));
    } else {
        lemma_extract_row_cells(b, y, x - 1);
        let v = b[cell_index(x - 1, y)];
        lemma_symbol_char_value(v);
        lemma_extract_one(symbol_char(v));
        lemma_extract_one('|');
        lemma_extract_one(' ');
        let pipe_part: Seq<char> = if (x - 1) % 3 == 0 {
            seq!['|']
        } else {
            seq![]
        };
        let space_part: Seq<char> = if x - 1 < 8 {
            seq![' ']
        } else {
            seq![]
        };
        lemma_extract_append(row_cells(b, y, x - 1), pipe_part);
        lemma_extract_append(row_cells(b, y, x - 1) + pipe_part, seq![symbol_char(v)]);
        lemma_extract_append(
            row_cells(b, y, x - 1) + pipe_part + seq![symbol_char(v)],
            space_part,
        );
        assert(extract(pipe_part) =~= Seq::<u8>::empty());
        assert(extract(space_part) =~= Seq::<u8>::empty());
        assert(extract(row_cells(b, y, x)) =~= b.subrange(9 * y, 9 * y + x));
    }
}

/// The rows printed above row `y` extract to exactly their cells.
proof fn lemma_extract_rows(b: Seq<u8>, y: int)
    requires
        b.len() == 81,
        forall|i: int| 0 <= i < 81 ==> b[i] <= 9,
        0 <= y <= 9,
    ensures
        extract(rows_chars(b, y)) == b.subrange(0, 9 * y),
    decreases y,
{
    if y <= 0 {
        assert(extract(rows_chars(b, y)) =~= b.subrange(0, 9 * y));
    } else {
        lemma_extract_rows(b, y - 1);
        lemma_extract_row_cells(b, y - 1, 9);
        lemma_extract_sep();
        lemma_extract_one('|');
        lemma_extract_one('\n');
        let sep_part: Seq<char> = if (y - 1) % 3 == 0 {
            sep_chars()
        } else {
            seq![]
        };
        assert(extract(sep_part) =~= Seq::<u8>::empty());
        assert(seq!['|', '\n'] =~= seq!['|'] + seq!['\n']);
        lemma_extract_append(seq!['|'], seq!['\n']);
        lemma_extract_append(row_cells(b, y - 1, 9), seq!['|', '\n']);
        lemma_extract_append(rows_chars(b, y - 1), sep_part);
        lemma_extract_append(rows_chars(b, y - 1) + sep_part, row_chars(b, y - 1));
        assert(extract(rows_chars(b, y)) =~= b.subrange(0, 9 * y));
    }
}

/// The round trip at the specification level: the cell values extracted
/// from a board's rendered text are exactly the board, so parsing what the
/// renderer produced always rebuilds the original board.
pub proof fn lemma_render_round_trip(b: Seq<u8>)
    requires
        b.len() == 81,
        forall|i: int| 0 <= i < 81 ==> b[i] <= 9,
    ensures
        extract(render_chars(b)) == b,
{
    lemma_extract_rows(b, 9);
    lemma_extract_sep();
    lemma_extract_append(rows_chars(b, 9), sep_chars());
    assert(b.subrange(0, 81) =~= b);
    assert(extract(render_chars(b)) =~= b);
}

/// Rendering a grid and parsing the rendered text reproduces the grid
/// exactly: the renderer/parser pair is format-symmetric for every valid
/// board, and this function is proved to return `true` on all of them.
pub fn check_round_trip(grid: &Grid) -> (r: bool)
    requires
        grid.wf(),
    ensures
        r,
{
    let text = render_grid(grid);
    match parse_grid(text.as_str()) {
        Some(parsed) => grid.eq_cells(&parsed),
        None => false,
    }
}

} // verus!
