use vstd::prelude::*;

use crate::coords::{in_row, lemma_row_of, row_of, size_ok, tri, Coordinates, PlayerId};
use crate::engine::group_wins;
use crate::game::{other_id, other_player, status_after_placement, GameStatus, GameY, GameYError, Movement};
use crate::topology::{total_for, TriangularTopology};
use vstd::std_specs::iter::IteratorSpec;

verus! {

/// A position in the exchange format: board size, the player to move, the two
/// players' symbols and the board layout, row by row, separated by `/`.
#[derive(Clone, Debug)]
pub struct YEN {
    pub size: u32,
    pub turn: u32,
    pub players: Vec<char>,
    pub layout: String,
}

impl YEN {
    pub fn new(size: u32, turn: u32, players: Vec<char>, layout: String) -> (r: YEN)
        ensures
            r.size == size,
            r.turn == turn,
            r.players@ == players@,
            r.layout@ == layout@,
    {
        YEN { size, turn, players, layout }
    }

    pub fn size(&self) -> (r: u32)
        ensures
            r == self.size,
    {
        self.size
    }

    pub fn turn(&self) -> (r: u32)
        ensures
            r == self.turn,
    {
        self.turn
    }

    pub fn players(&self) -> (r: &Vec<char>)
        ensures
            r@ == self.players@,
    {
        &self.players
    }

    pub fn layout(&self) -> (r: &str)
        ensures
            r@ == self.layout@,
    {
        self.layout.as_str()
    }
}

/// The layout symbol of a cell's owner.
pub open spec fn symbol_of(o: Option<PlayerId>) -> char {
    match o {
        Some(p) => if p.id == 0 {
            'B'
        } else if p.id == 1 {
            'R'
        } else {
            '.'
        },
        None => '.',
    }
}

/// The tags written for the two players.
pub open spec fn written_tags() -> Seq<char> {
    seq!['B', 'R']
}

/// The two players' tags are two distinct characters, neither `.` nor `/`.
pub open spec fn tags_ok(tags: Seq<char>) -> bool {
    &&& tags.len() == 2
    &&& tags[0] != tags[1]
    &&& tags[0] != '.' && tags[1] != '.'
    &&& tags[0] != '/' && tags[1] != '/'
}

/// The owner that a layout symbol stands for, given the players' `tags`.
pub open spec fn owner_of_symbol(c: char, tags: Seq<char>) -> Option<PlayerId> {
    if c == tags[0] {
        Some(PlayerId { id: 0 })
    } else if c == tags[1] {
        Some(PlayerId { id: 1 })
    } else {
        None
    }
}

/// `c` is one of the players' `tags` or `.`.
pub open spec fn valid_symbol(c: char, tags: Seq<char>) -> bool {
    c == tags[0] || c == tags[1] || c == '.'
}

/// The symbols of row `r`: the cells `tri(r) .. tri(r) + r`.
pub open spec fn row_chars(st: Seq<Option<PlayerId>>, r: nat) -> Seq<char> {
    Seq::new(r + 1, |c: int| symbol_of(st[tri(r) + c]))
}

/// The layout of the first `n` rows, rows separated by `/`.
pub open spec fn layout_of(st: Seq<Option<PlayerId>>, n: nat) -> Seq<char>
    decreases n,
{
    if n == 0 {
        Seq::empty()
    } else if n == 1 {
        row_chars(st, 0)
    } else {
        layout_of(st, (n - 1) as nat) + seq!['/'] + row_chars(st, (n - 1) as nat)
    }
}

/// `s` cut at every `/`.
pub open spec fn split_rows(s: Seq<char>) -> Seq<Seq<char>>
    decreases s.len(),
{
    if s.len() == 0 {
        seq![Seq::empty()]
    } else {
        let prev = split_rows(s.drop_last());
        if s.last() == '/' {
            prev.push(Seq::empty())
        } else {
            prev.update(prev.len() - 1, prev.last().push(s.last()))
        }
    }
}

/// The first character of `row`, from column `c` on, that is not a layout symbol.
pub open spec fn char_error(row: Seq<char>, r: nat, c: nat, tags: Seq<char>) -> Option<GameYError>
    decreases row.len() - c,
{
    if c >= row.len() {
        None
    } else if !valid_symbol(row[c as int], tags) {
        Some(GameYError::InvalidCharInLayout { char: row[c as int], row: r as usize, col: c as usize })
    } else {
        char_error(row, r, c + 1, tags)
    }
}

/// The first fault of the rows from `r` on: a wrong length, or a bad character.
pub open spec fn rows_error(rows: Seq<Seq<char>>, r: nat, tags: Seq<char>) -> Option<GameYError>
    decreases rows.len() - r,
{
    if r >= rows.len() {
        None
    } else if rows[r as int].len() != r + 1 {
        Some(
            GameYError::InvalidYENLayoutLine {
                expected: (r + 1) as u32,
                found: rows[r as int].len() as u32,
                line: r as u32,
            },
        )
    } else {
        match char_error(rows[r as int], r, 0, tags) {
            Some(e) => Some(e),
            None => rows_error(rows, r + 1, tags),
        }
    }
}

/// The first fault of a layout cut into `rows` for a board of side `size`.
pub open spec fn layout_error(rows: Seq<Seq<char>>, size: nat, tags: Seq<char>) -> Option<GameYError> {
    if rows.len() != size {
        Some(GameYError::InvalidYENLayout { expected: size as u32, found: rows.len() as u32 })
    } else {
        rows_error(rows, 0, tags)
    }
}

/// The owners that a well-formed layout gives the cells, by index.
pub open spec fn decoded_cells(rows: Seq<Seq<char>>, size: nat, tags: Seq<char>) -> Seq<Option<PlayerId>> {
    Seq::new(
        tri(size),
        |i: int| owner_of_symbol(rows[row_of(i as nat) as int][i - tri(row_of(i as nat))], tags),
    )
}

/// `cells` with the cells from index `j` on left free.
pub open spec fn prefix_cells(cells: Seq<Option<PlayerId>>, j: nat) -> Seq<Option<PlayerId>> {
    Seq::new(cells.len(), |i: int| if i < j { cells[i] } else { None })
}

/// The status after placing the pieces of `cells` one by one in index order,
/// up to index `j`.
pub open spec fn replay_status(t: &TriangularTopology, cells: Seq<Option<PlayerId>>, j: nat) -> GameStatus
    decreases j,
{
    if j == 0 {
        GameStatus::Ongoing { next_player: PlayerId { id: 0 } }
    } else {
        let prev = replay_status(t, cells, (j - 1) as nat);
        match cells[j - 1] {
            None => prev,
            Some(p) => status_after_placement(
                prev,
                p,
                group_wins(t, prefix_cells(cells, j), j - 1),
            ),
        }
    }
}

/// The turn indicator of a status: the player to move, or the loser.
pub open spec fn turn_of(s: GameStatus) -> u32 {
    match s {
        GameStatus::Ongoing { next_player } => next_player.id,
        GameStatus::Finished { winner } => other_id(winner.id),
    }
}

/// Relies on `FromIterator<char>` for `String`: the string holds the characters in order.
#[verifier::external_body]
pub(crate) fn string_from_chars(v: &Vec<char>) -> (r: String)
    ensures
        r@ == v@,
{
    v.iter().collect()
}

/// Returns the characters of `s` in order.
pub(crate) fn chars_of(s: &str) -> (r: Vec<char>)
    ensures
        r@ == s@,
{
    broadcast use vstd::string::group_string_axioms;

    let mut it = s.chars();
    let mut out: Vec<char> = Vec::new();
    loop
        invariant
            it.obeys_prophetic_iter_laws(),
            it.decrease() is Some,
            out@ + it.remaining() == s@,
        ensures
            out@ == s@,
        decreases it.decrease()->0,
    {
        let ghost prev = it;
        match it.next() {
            Some(c) => {
                out.push(c);
            },
            None => {
                assert(prev.remaining().len() == 0);
                assert(out@ =~= s@);
                break;
            },
        }
    }
    out
}

/// Returns the layout symbol of a cell's owner.
fn symbol(o: Option<PlayerId>) -> (r: char)
    ensures
        r == symbol_of(o),
{
    match o {
        Some(p) => if p.id() == 0 {
            'B'
        } else if p.id() == 1 {
            'R'
        } else {
            '.'
        },
        None => '.',
    }
}

/// Cuts `chars` at every `/`.
fn split_layout(chars: &Vec<char>) -> (r: Vec<Vec<char>>)
    ensures
        r@.map_values(|v: Vec<char>| v@) == split_rows(chars@),
{
    let mut rows: Vec<Vec<char>> = Vec::new();
    let mut cur: Vec<char> = Vec::new();
    let mut i: usize = 0;
    while i < chars.len()
        invariant
            i <= chars.len(),
            rows@.map_values(|v: Vec<char>| v@).push(cur@) == split_rows(chars@.subrange(0, i as int)),
        decreases chars.len() - i,
    {
        let c = chars[i];
        let ghost before = chars@.subrange(0, i as int);
        assert(chars@.subrange(0, i + 1).drop_last() == before);
        if c == '/' {
            let ghost prev_rows = rows@;
            let done = cur;
            rows.push(done);
            cur = Vec::new();
            assert(rows@.map_values(|v: Vec<char>| v@) =~= prev_rows.map_values(|v: Vec<char>| v@).push(done@));
        } else {
            cur.push(c);
        }
        i = i + 1;
        assert(rows@.map_values(|v: Vec<char>| v@).push(cur@) =~= split_rows(chars@.subrange(0, i as int)));
    }
    assert(chars@.subrange(0, i as int) == chars@);
    let ghost prev_rows = rows@;
    let last = cur;
    rows.push(last);
    assert(rows@.map_values(|v: Vec<char>| v@) =~= prev_rows.map_values(|v: Vec<char>| v@).push(last@));
    rows
}

/// Reads the owners of the cells off layout rows, checking each row's length
/// and symbols in order.
fn cells_from_rows(rows: &Vec<Vec<char>>, first: char, second: char) -> (r: Result<
    Vec<Option<PlayerId>>,
    GameYError,
>)
    ensures
        ({
            let rv = rows@.map_values(|v: Vec<char>| v@);
            let tags = seq![first, second];
            match rows_error(rv, 0, tags) {
                Some(e) => r == Err::<Vec<Option<PlayerId>>, GameYError>(e),
                None => r is Ok && r->Ok_0@ == decoded_cells(rv, rv.len(), tags),
            }
        }),
{
    let ghost rv = rows@.map_values(|v: Vec<char>| v@);
    let ghost tags = seq![first, second];
    let mut cells: Vec<Option<PlayerId>> = Vec::new();
    let mut row: usize = 0;
    while row < rows.len()
        invariant
            rv == rows@.map_values(|v: Vec<char>| v@),
            row <= rows.len(),
            tags == seq![first, second],
            rows_error(rv, 0, tags) == rows_error(rv, row as nat, tags),
            cells@.len() == tri(row as nat),
            forall|i: int|
                0 <= i < tri(row as nat) ==> #[trigger] cells@[i] == owner_of_symbol(
                    rv[row_of(i as nat) as int][i - tri(row_of(i as nat))],
                    tags,
                ),
        decreases rows.len() - row,
    {
        let line = &rows[row];
        assert(line@ == rv[row as int]);
        if line.len() != row + 1 {
            return Err(
                GameYError::InvalidYENLayoutLine {
                    expected: (row + 1) as u32,
                    found: line.len() as u32,
                    line: row as u32,
                },
            );
        }
        let mut col: usize = 0;
        while col < line.len()
            invariant
                rv == rows@.map_values(|v: Vec<char>| v@),
                line@ == rv[row as int],
                row < rows.len(),
                line.len() == row + 1,
                col <= line.len(),
                tags == seq![first, second],
            rows_error(rv, 0, tags) == rows_error(rv, row as nat, tags),
                char_error(line@, row as nat, 0, tags) == char_error(line@, row as nat, col as nat, tags),
                cells@.len() == tri(row as nat) + col,
                forall|i: int|
                    0 <= i < tri(row as nat) + col ==> #[trigger] cells@[i] == owner_of_symbol(
                        rv[row_of(i as nat) as int][i - tri(row_of(i as nat))],
                        tags,
                    ),
            decreases line.len() - col,
        {
            let ch = line[col];
            let owner: Option<PlayerId> = if ch == first {
                Some(PlayerId::new(0))
            } else if ch == second {
                Some(PlayerId::new(1))
            } else if ch == '.' {
                None
            } else {
                return Err(GameYError::InvalidCharInLayout { char: ch, row, col });
            };
            proof {
                let i = tri(row as nat) + col;
                assert(in_row(i as nat, row as nat));
                lemma_row_of(i as nat);
            }
            cells.push(owner);
            col = col + 1;
        }
        row = row + 1;
    }
    Ok(cells)
}

impl GameY {
    /// Returns the position in the exchange format.
    pub fn to_yen(&self) -> (r: YEN)
        requires
            self.wf(),
        ensures
            r.size == self.board_size,
            r.turn == turn_of(self.status),
            r.players@ == written_tags(),
            r.layout@ == layout_of(self.cells(), self.board_size as nat),
    {
        let size = self.board_size;
        let turn = match self.status {
            GameStatus::Finished { winner } => other_player(winner).id(),
            GameStatus::Ongoing { next_player } => next_player.id(),
        };
        let ghost st = self.cells();
        let mut chars: Vec<char> = Vec::new();
        let mut row: u32 = 0;
        let mut start: u32 = 0;
        while row < size
            invariant
                size == self.board_size,
                size_ok(size as nat),
                st == self.cells(),
                st.len() == tri(size as nat),
                row <= size,
                start == tri(row as nat),
                chars@ == layout_of(st, row as nat),
            decreases size - row,
        {
            proof {
                crate::coords::lemma_tri_monotone((row + 1) as nat, size as nat);
                crate::coords::lemma_size_ok(size as nat);
            }
            if row > 0 {
                chars.push('/');
            }
            let ghost base = chars@;
            let mut col: u32 = 0;
            while col <= row
                invariant
                    size == self.board_size,
                    st == self.cells(),
                    st.len() == tri(size as nat),
                    row < size,
                    start == tri(row as nat),
                    tri(row as nat) + row + 1 <= tri(size as nat),
                    tri(size as nat) <= u32::MAX,
                    col <= row + 1,
                    chars@ == base + row_chars(st, row as nat).subrange(0, col as int),
                decreases row + 1 - col,
            {
                chars.push(symbol(self.engine.state[(start + col) as usize]));
                col = col + 1;
                assert(chars@ =~= base + row_chars(st, row as nat).subrange(0, col as int));
            }
            assert(row_chars(st, row as nat).subrange(0, col as int) =~= row_chars(st, row as nat));
            start = start + row + 1;
            row = row + 1;
        }
        let mut players: Vec<char> = Vec::new();
        players.push('B');
        players.push('R');
        assert(players@ =~= written_tags());
        YEN::new(size, turn, players, string_from_chars(&chars))
    }

    /// Builds the game that a position in the exchange format describes,
    /// placing its pieces one by one in index order. Fails when the record does
    /// not name two usable player tags, else on the first fault of the layout:
    /// its row count, then row by row its length and symbols.
    pub fn try_from(game: YEN) -> (r: Result<GameY, GameYError>)
        requires
            size_ok(game.size as nat),
        ensures
            ({
                let rows = split_rows(game.layout@);
                let size = game.size as nat;
                let tags = game.players@;
                if !tags_ok(tags) {
                    r == Err::<GameY, GameYError>(GameYError::InvalidYENPlayers)
                } else {
                    match layout_error(rows, size, tags) {
                        Some(e) => r == Err::<GameY, GameYError>(e),
                        None => {
                            &&& r is Ok
                            &&& r->Ok_0.wf()
                            &&& r->Ok_0.board_size == game.size
                            &&& r->Ok_0.cells() == decoded_cells(rows, size, tags)
                            &&& r->Ok_0.status == replay_status(
                                &r->Ok_0.engine.topology,
                                decoded_cells(rows, size, tags),
                                tri(size),
                            )
                        },
                    }
                }
            }),
    {
        let size = game.size();
        let players = game.players();
        if players.len() != 2 {
            return Err(GameYError::InvalidYENPlayers);
        }
        let first = players[0];
        let second = players[1];
        if first == second || first == '.' || second == '.' || first == '/' || second == '/' {
            return Err(GameYError::InvalidYENPlayers);
        }
        assert(game.players@ =~= seq![first, second]);
        let chars = chars_of(game.layout());
        let rows = split_layout(&chars);
        if rows.len() != size as usize {
            return Err(GameYError::InvalidYENLayout { expected: size, found: rows.len() as u32 });
        }
        let cells = match cells_from_rows(&rows, first, second) {
            Ok(c) => c,
            Err(e) => {
                return Err(e);
            },
        };
        let ghost decoded = cells@;
        let mut ygame = GameY::new(size);
        let ghost topo = ygame.engine.topology;
        let total = total_for(size);
        proof {
            assert(ygame.cells() =~= prefix_cells(decoded, 0));
        }
        let mut idx: u32 = 0;
        while idx < total
            invariant
                ygame.wf(),
                ygame.board_size == size,
                ygame.engine.topology == topo,
                size_ok(size as nat),
                total == tri(size as nat),
                cells@ == decoded,
                decoded.len() == total,
                idx <= total,
                ygame.cells() == prefix_cells(decoded, idx as nat),
                ygame.status == replay_status(&topo, decoded, idx as nat),
            decreases total - idx,
        {
            if let Some(player) = cells[idx as usize] {
                let coords = Coordinates::from_index(idx, size);
                match ygame.add_move(Movement::Placement { player, coords }) {
                    Ok(()) => {},
                    Err(e) => {
                        return Err(e);
                    },
                }
                assert(ygame.cells() =~= prefix_cells(decoded, (idx + 1) as nat));
            } else {
                assert(prefix_cells(decoded, idx as nat) =~= prefix_cells(decoded, (idx + 1) as nat));
            }
            idx = idx + 1;
        }
        Ok(ygame)
    }
}

proof fn lemma_split_nonempty(s: Seq<char>)
    ensures
        split_rows(s).len() >= 1,
    decreases s.len(),
{
    if s.len() > 0 {
        lemma_split_nonempty(s.drop_last());
    }
}

/// Appending characters other than `/` extends the last row.
proof fn lemma_split_plain(s: Seq<char>, t: Seq<char>)
    requires
        forall|i: int| 0 <= i < t.len() ==> t[i] != '/',
    ensures
        split_rows(s + t) == split_rows(s).update(
            split_rows(s).len() - 1,
            split_rows(s).last() + t,
        ),
    decreases t.len(),
{
    lemma_split_nonempty(s);
    if t.len() == 0 {
        assert(s + t =~= s);
        assert(split_rows(s).last() + t =~= split_rows(s).last());
        assert(split_rows(s).update(split_rows(s).len() - 1, split_rows(s).last()) =~= split_rows(s));
    } else {
        let t0 = t.drop_last();
        lemma_split_plain(s, t0);
        assert((s + t).drop_last() =~= s + t0);
        assert((s + t).last() == t.last());
        lemma_split_nonempty(s + t0);
        assert(split_rows(s + t0).last() + seq![t.last()] =~= split_rows(s).last() + t);
        assert(split_rows(s + t0).last().push(t.last()) =~= split_rows(s).last() + t);
        assert(split_rows(s + t) =~= split_rows(s).update(
            split_rows(s).len() - 1,
            split_rows(s).last() + t,
        ));
    }
}

/// Cutting an encoded layout gives back its rows.
proof fn lemma_split_layout(st: Seq<Option<PlayerId>>, n: nat)
    requires
        n >= 1,
    ensures
        split_rows(layout_of(st, n)) == Seq::new(n, |r: int| row_chars(st, r as nat)),
    decreases n,
{
    if n == 1 {
        let e = Seq::<char>::empty();
        assert(e + row_chars(st, 0) =~= row_chars(st, 0));
        lemma_split_plain(e, row_chars(st, 0));
        assert(split_rows(e) == seq![e]);
        assert(split_rows(layout_of(st, n)) =~= Seq::new(n, |r: int| row_chars(st, r as nat)));
    } else {
        let m = (n - 1) as nat;
        lemma_split_layout(st, m);
        let a = layout_of(st, m) + seq!['/'];
        assert(a.drop_last() =~= layout_of(st, m));
        assert(split_rows(a) == split_rows(layout_of(st, m)).push(Seq::empty()));
        lemma_split_plain(a, row_chars(st, m));
        assert(Seq::<char>::empty() + row_chars(st, m) =~= row_chars(st, m));
        assert(split_rows(layout_of(st, n)) =~= Seq::new(n, |r: int| row_chars(st, r as nat)));
    }
}

proof fn lemma_row_chars_ok(st: Seq<Option<PlayerId>>, r: nat, c: nat)
    ensures
        char_error(row_chars(st, r), r, c, written_tags()) is None,
    decreases r + 1 - c,
{
    if c < r + 1 {
        lemma_row_chars_ok(st, r, c + 1);
    }
}

proof fn lemma_rows_ok(st: Seq<Option<PlayerId>>, n: nat, r: nat)
    ensures
        rows_error(Seq::new(n, |q: int| row_chars(st, q as nat)), r, written_tags()) is None,
    decreases n - r,
{
    let rows = Seq::new(n, |q: int| row_chars(st, q as nat));
    if r < n {
        lemma_row_chars_ok(st, r, 0);
        assert(rows[r as int] == row_chars(st, r));
        lemma_rows_ok(st, n, r + 1);
    }
}

/// Encoding a position in the exchange format and decoding it gives back the
/// same occupancy, for pieces of the two players.
pub proof fn lemma_exchange_round_trip(g: &GameY)
    requires
        g.wf(),
        g.board_size >= 1,
        forall|c: int|
            0 <= c < g.cells().len() && #[trigger] g.cells()[c] is Some ==> g.cells()[c]->0.id < 2,
    ensures
        ({
            let size = g.board_size as nat;
            let rows = split_rows(layout_of(g.cells(), size));
            &&& tags_ok(written_tags())
            &&& layout_error(rows, size, written_tags()) is None
            &&& decoded_cells(rows, size, written_tags()) == g.cells()
        }),
{
    let size = g.board_size as nat;
    let st = g.cells();
    lemma_split_layout(st, size);
    lemma_rows_ok(st, size, 0);
    let rows = split_rows(layout_of(st, size));
    assert forall|i: int| 0 <= i < tri(size) implies #[trigger] decoded_cells(rows, size, written_tags())[i] == st[i] by {
        lemma_row_of(i as nat);
        let r = row_of(i as nat);
        if r >= size {
            crate::coords::lemma_tri_monotone(size, r);
        }
        assert(rows[r as int] == row_chars(st, r));
    }
    assert(decoded_cells(rows, size, written_tags()) =~= st);
}

} // verus!
