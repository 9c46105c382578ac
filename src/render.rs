use vstd::prelude::*;

use crate::coords::{size_ok, tri, Coordinates, PlayerId};
use crate::game::GameY;
use crate::yen::{chars_of, string_from_chars};

verus! {

/// What the text picture of a board shows besides the pieces.
#[derive(Clone, Copy, Debug, PartialEq, Eq, Structural)]
pub struct RenderOptions {
    /// Each cell's coordinates.
    pub show_3d_coords: bool,
    /// Each cell's index.
    pub show_idx: bool,
    /// Terminal colours for the two players' pieces.
    pub show_colors: bool,
}

/// The character of decimal digit `d`.
pub open spec fn digit_char(d: nat) -> char {
    seq!['0', '1', '2', '3', '4', '5', '6', '7', '8', '9'][d as int]
}

/// The decimal digits of `n`, most significant first.
pub open spec fn digits(n: nat) -> Seq<char>
    decreases n,
{
    if n < 10 {
        seq![digit_char(n)]
    } else {
        digits(n / 10).push(digit_char(n % 10))
    }
}

/// The digits of `n`, with zeros in front up to `width` characters.
pub open spec fn padded(n: nat, width: nat) -> Seq<char> {
    if digits(n).len() >= width {
        digits(n)
    } else {
        Seq::new((width - digits(n).len()) as nat, |i: int| '0') + digits(n)
    }
}

/// The escape sequence that colours text for `id`, or nothing.
pub open spec fn colored(s: Seq<char>, owner: Option<PlayerId>) -> Seq<char> {
    match owner {
        Some(p) => if p.id == 0 {
            seq!['\x1b', '[', '3', '4', 'm'] + s + seq!['\x1b', '[', '0', 'm']
        } else if p.id == 1 {
            seq!['\x1b', '[', '3', '1', 'm'] + s + seq!['\x1b', '[', '0', 'm']
        } else {
            s
        },
        None => s,
    }
}

/// The text of one cell.
pub open spec fn cell_text(
    owner: Option<PlayerId>,
    c: Coordinates,
    idx: nat,
    o: RenderOptions,
    width: nat,
) -> Seq<char> {
    let base = match owner {
        Some(p) => digits(p.id as nat),
        None => seq!['.'],
    };
    let with_coords = if o.show_3d_coords {
        base + seq!['('] + padded(c.x as nat, width) + seq![','] + padded(c.y as nat, width) + seq![
            ',',
        ] + padded(c.z as nat, width) + seq![')']
    } else {
        base
    };
    let with_idx = if o.show_idx {
        with_coords + seq!['('] + digits(idx) + seq![')', ' ']
    } else {
        with_coords
    };
    if o.show_colors {
        colored(with_idx, owner)
    } else {
        with_idx
    }
}

/// Spaces per unit of indentation.
pub open spec fn indent_of(o: RenderOptions) -> nat {
    if o.show_3d_coords && o.show_idx {
        8
    } else if o.show_3d_coords || o.show_idx {
        4
    } else {
        2
    }
}

/// The first `n` cells of row `r`, each followed by three spaces.
pub open spec fn row_cells(
    st: Seq<Option<PlayerId>>,
    size: nat,
    r: nat,
    n: nat,
    o: RenderOptions,
    width: nat,
) -> Seq<char>
    decreases n,
{
    if n == 0 {
        Seq::empty()
    } else {
        let y = (n - 1) as nat;
        let c = Coordinates { x: (size - 1 - r) as u32, y: y as u32, z: (r - y) as u32 };
        row_cells(st, size, r, y, o, width) + cell_text(st[(tri(r) + y) as int], c, tri(r) + y, o, width)
            + seq![' ', ' ', ' ']
    }
}

/// The text of row `r`.
pub open spec fn row_text(
    st: Seq<Option<PlayerId>>,
    size: nat,
    r: nat,
    o: RenderOptions,
    width: nat,
) -> Seq<char> {
    Seq::new(((size - 1 - r) * indent_of(o)) as nat, |i: int| ' ') + row_cells(
        st,
        size,
        r,
        r + 1,
        o,
        width,
    ) + if o.show_idx || o.show_3d_coords {
        seq!['\n', '\n']
    } else {
        seq!['\n']
    }
}

/// The text of the first `n` rows.
pub open spec fn rows_text(
    st: Seq<Option<PlayerId>>,
    size: nat,
    n: nat,
    o: RenderOptions,
    width: nat,
) -> Seq<char>
    decreases n,
{
    if n == 0 {
        Seq::empty()
    } else {
        rows_text(st, size, (n - 1) as nat, o, width) + row_text(st, size, (n - 1) as nat, o, width)
    }
}

/// The whole picture of a board: a title line, then one row per line.
pub open spec fn board_text(st: Seq<Option<PlayerId>>, size: nat, o: RenderOptions) -> Seq<char> {
    "--- Game of Y (Size "@ + digits(size) + ") ---\n"@ + rows_text(
        st,
        size,
        size,
        o,
        digits(size).len(),
    )
}

/// Appends the characters of `s`.
fn push_str(out: &mut Vec<char>, s: &str)
    ensures
        final(out)@ == old(out)@ + s@,
{
    let mut chars = chars_of(s);
    out.append(&mut chars);
}

fn push_digit(out: &mut Vec<char>, d: u32)
    requires
        d < 10,
    ensures
        final(out)@ == old(out)@.push(digit_char(d as nat)),
{
    let table: [char; 10] = ['0', '1', '2', '3', '4', '5', '6', '7', '8', '9'];
    assert(table@ == seq!['0', '1', '2', '3', '4', '5', '6', '7', '8', '9']);
    out.push(table[d as usize]);
}

/// Appends the decimal digits of `n`.
fn push_decimal(out: &mut Vec<char>, n: u32)
    ensures
        final(out)@ == old(out)@ + digits(n as nat),
    decreases n,
{
    if n >= 10 {
        push_decimal(out, n / 10);
    }
    push_digit(out, n % 10);
    assert(final(out)@ =~= old(out)@ + digits(n as nat));
}

/// Returns the number of decimal digits of `n`.
fn decimal_len(n: u32) -> (r: usize)
    ensures
        r == digits(n as nat).len(),
{
    let mut tmp: Vec<char> = Vec::new();
    push_decimal(&mut tmp, n);
    assert(tmp@ =~= digits(n as nat));
    tmp.len()
}

/// Appends `n` padded with zeros to `width` characters.
fn push_padded(out: &mut Vec<char>, n: u32, width: usize)
    ensures
        final(out)@ == old(out)@ + padded(n as nat, width as nat),
{
    let len = decimal_len(n);
    let ghost start = out@;
    if len < width {
        let mut i: usize = 0;
        while i < width - len
            invariant
                len < width,
                i <= width - len,
                out@ == start + Seq::new(i as nat, |j: int| '0'),
            decreases width - len - i,
        {
            out.push('0');
            i = i + 1;
            assert(out@ =~= start + Seq::new(i as nat, |j: int| '0'));
        }
    }
    push_decimal(out, n);
    assert(out@ =~= start + padded(n as nat, width as nat));
}

/// Appends `level` spaces.
fn indent(out: &mut Vec<char>, level: u32)
    ensures
        final(out)@ == old(out)@ + Seq::new(level as nat, |i: int| ' '),
{
    let ghost start = out@;
    let mut i: u32 = 0;
    while i < level
        invariant
            i <= level,
            out@ == start + Seq::new(i as nat, |j: int| ' '),
        decreases level - i,
    {
        out.push(' ');
        i = i + 1;
        assert(out@ =~= start + Seq::new(i as nat, |j: int| ' '));
    }
}

/// Wraps a cell's text in the colour of its owner.
fn apply_player_color(symbol: Vec<char>, player: Option<PlayerId>) -> (r: Vec<char>)
    ensures
        r@ == colored(symbol@, player),
{
    let code: char = match player {
        Some(p) => if p.id() == 0 {
            '4'
        } else if p.id() == 1 {
            '1'
        } else {
            return symbol;
        },
        None => {
            return symbol;
        },
    };
    let mut out: Vec<char> = Vec::new();
    out.push('\x1b');
    out.push('[');
    out.push('3');
    out.push(code);
    out.push('m');
    let mut s = symbol;
    let ghost body = s@;
    out.append(&mut s);
    out.push('\x1b');
    out.push('[');
    out.push('0');
    out.push('m');
    assert(out@ =~= colored(body, player));
    out
}

/// The text of a cell owned by `player`, at `coords` and index `idx`.
fn cell_string(
    player: Option<PlayerId>,
    coords: Coordinates,
    idx: u32,
    options: &RenderOptions,
    width: usize,
) -> (r: Vec<char>)
    ensures
        r@ == cell_text(player, coords, idx as nat, *options, width as nat),
{
    let mut symbol: Vec<char> = Vec::new();
    match player {
        Some(p) => push_decimal(&mut symbol, p.id()),
        None => symbol.push('.'),
    }
    let ghost base = symbol@;
    if options.show_3d_coords {
        symbol.push('(');
        push_padded(&mut symbol, coords.x(), width);
        symbol.push(',');
        push_padded(&mut symbol, coords.y(), width);
        symbol.push(',');
        push_padded(&mut symbol, coords.z(), width);
        symbol.push(')');
    }
    let ghost with_coords = symbol@;
    assert(with_coords =~= (if options.show_3d_coords {
        base + seq!['('] + padded(coords.x as nat, width as nat) + seq![','] + padded(
            coords.y as nat,
            width as nat,
        ) + seq![','] + padded(coords.z as nat, width as nat) + seq![')']
    } else {
        base
    }));
    if options.show_idx {
        symbol.push('(');
        push_decimal(&mut symbol, idx);
        symbol.push(')');
        symbol.push(' ');
    }
    assert(symbol@ =~= (if options.show_idx {
        with_coords + seq!['('] + digits(idx as nat) + seq![')', ' ']
    } else {
        with_coords
    }));
    if options.show_colors {
        symbol = apply_player_color(symbol, player);
    }
    symbol
}

impl GameY {
    /// Spaces per unit of indentation for `options`.
    fn get_indent_multiplier(&self, options: &RenderOptions) -> (r: u32)
        ensures
            r == indent_of(*options),
    {
        match (options.show_3d_coords, options.show_idx) {
            (true, true) => 8,
            (true, false) => 4,
            (false, true) => 4,
            (false, false) => 2,
        }
    }

    /// The text of the cell at `coords`.
    fn format_cell(&self, coords: Coordinates, options: &RenderOptions, width: usize) -> (r: Vec<
        char,
    >)
        requires
            self.wf(),
            coords.valid(self.board_size as nat),
        ensures
            r@ == cell_text(
                self.cells()[coords.index(self.board_size as nat) as int],
                coords,
                coords.index(self.board_size as nat),
                *options,
                width as nat,
            ),
    {
        let idx = coords.to_index(self.board_size);
        let player = self.engine.state[idx as usize];
        cell_string(player, coords, idx, options, width)
    }

    /// Draws the board as text: a title line, then one line per row, the
    /// first row (the corner `x == size - 1`) at the top.
    pub fn render(&self, options: &RenderOptions) -> (r: String)
        requires
            self.wf(),
        ensures
            r@ == board_text(self.cells(), self.board_size as nat, *options),
    {
        let size = self.board_size;
        let ghost st = self.cells();
        let ghost o = *options;
        let mut out: Vec<char> = Vec::new();
        let coords_size = decimal_len(size);
        push_str(&mut out, "--- Game of Y (Size ");
        push_decimal(&mut out, size);
        push_str(&mut out, ") ---\n");
        let ghost header = out@;
        let indent_multiplier = self.get_indent_multiplier(options);
        proof {
            crate::topology::lemma_size_bound(size as nat);
        }
        let mut row: u32 = 0;
        while row < size
            invariant
                self.wf(),
                size == self.board_size,
                st == self.cells(),
                o == *options,
                indent_multiplier == indent_of(o),
                size <= u32::MAX,
                size_ok(size as nat),
                row <= size,
                out@ == header + rows_text(st, size as nat, row as nat, o, coords_size as nat),
            decreases size - row,
        {
            let x = size - 1 - row;
            proof {
                let n = size as nat;
                crate::coords::lemma_tri_formula(n);
                assert(n * 8 <= u32::MAX) by (nonlinear_arith)
                    requires
                        n * (n + 1) / 2 <= u32::MAX,
                ;
                assert(x * indent_multiplier <= n * 8) by (nonlinear_arith)
                    requires
                        x < n,
                        indent_multiplier <= 8,
                ;
            }
            indent(&mut out, x * indent_multiplier);
            let ghost before_cells = out@;
            let mut y: u32 = 0;
            while y <= row
                invariant
                    self.wf(),
                    size == self.board_size,
                    st == self.cells(),
                    o == *options,
                    row < size,
                    x == size - 1 - row,
                    y <= row + 1,
                    out@ == before_cells + row_cells(st, size as nat, row as nat, y as nat, o, coords_size as nat),
                decreases row + 1 - y,
            {
                let z = row - y;
                let coords = Coordinates::new(x, y, z);
                let cell_str = self.format_cell(coords, options, coords_size);
                let mut cs = cell_str;
                out.append(&mut cs);
                out.push(' ');
                out.push(' ');
                out.push(' ');
                y = y + 1;
                assert(out@ =~= before_cells + row_cells(st, size as nat, row as nat, y as nat, o, coords_size as nat));
            }
            out.push('\n');
            if options.show_idx || options.show_3d_coords {
                out.push('\n');
            }
            row = row + 1;
            assert(out@ =~= header + rows_text(st, size as nat, row as nat, o, coords_size as nat));
        }
        string_from_chars(&out)
    }
}

} // verus!
