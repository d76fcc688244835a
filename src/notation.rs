use vstd::prelude::*;

use vstd::std_specs::iter::IteratorSpec;

use crate::board::{lemma_coord_of, lemma_wf_bounds, Board, BoardView};
use crate::types::{Coord, Move, Player};

verus! {

/// Number of lettered columns: `A` to `O`.
pub const COLUMN_LETTERS: usize = 15;

/// The letter of column `x`, `A` for column 0; columns past `O` have no letter of their
/// own and read `A`.
pub open spec fn column_letter(x: int) -> char {
    if x == 0 {
        'A'
    } else if x == 1 {
        'B'
    } else if x == 2 {
        'C'
    } else if x == 3 {
        'D'
    } else if x == 4 {
        'E'
    } else if x == 5 {
        'F'
    } else if x == 6 {
        'G'
    } else if x == 7 {
        'H'
    } else if x == 8 {
        'I'
    } else if x == 9 {
        'J'
    } else if x == 10 {
        'K'
    } else if x == 11 {
        'L'
    } else if x == 12 {
        'M'
    } else if x == 13 {
        'N'
    } else if x == 14 {
        'O'
    } else {
        'A'
    }
}

/// The column a letter names, either case.
pub open spec fn column_of(c: char) -> Option<int> {
    if 'A' <= c && c <= 'O' {
        Some(c as int - 'A' as int)
    } else if 'a' <= c && c <= 'o' {
        Some(c as int - 'a' as int)
    } else {
        None
    }
}

pub open spec fn digit_char(d: int) -> char {
    if d == 0 {
        '0'
    } else if d == 1 {
        '1'
    } else if d == 2 {
        '2'
    } else if d == 3 {
        '3'
    } else if d == 4 {
        '4'
    } else if d == 5 {
        '5'
    } else if d == 6 {
        '6'
    } else if d == 7 {
        '7'
    } else if d == 8 {
        '8'
    } else {
        '9'
    }
}

/// `n` in decimal, without leading zeros.
pub open spec fn decimal(n: nat) -> Seq<char>
    decreases n,
{
    if n < 10 {
        seq![digit_char(n as int)]
    } else {
        decimal(n / 10).push(digit_char((n % 10) as int))
    }
}

pub open spec fn is_digit(c: char) -> bool {
    '0' <= c && c <= '9'
}

/// The value of a string of decimal digits.
pub open spec fn digits_value(s: Seq<char>) -> nat
    decreases s.len(),
{
    if s.len() == 0 {
        0
    } else {
        digits_value(s.drop_last()) * 10 + (s.last() as int - '0' as int) as nat
    }
}

/// A number as Rust reads an unsigned integer: an optional `+`, then one or more digits,
/// whose value must fit in `usize`.
pub open spec fn parse_number(s: Seq<char>) -> Option<nat> {
    if s.len() > 0 && s[0] == '+' {
        digits_number(s.drop_first())
    } else {
        digits_number(s)
    }
}

/// One or more decimal digits whose value fits in `usize`.
pub open spec fn digits_number(d: Seq<char>) -> Option<nat> {
    if d.len() > 0 && (forall|i: int| 0 <= i < d.len() ==> is_digit(#[trigger] d[i])) && digits_value(d)
        <= usize::MAX {
        Some(digits_value(d))
    } else {
        None
    }
}

/// The label of a cell: its column letter and its row counted from 1 (`H8` is `(7, 7)`).
pub open spec fn label_of(c: Coord) -> Seq<char> {
    seq![column_letter(c.x as int)] + decimal((c.y + 1) as nat)
}

/// The cell a label names; `None` unless it is a column letter followed by a row number
/// from 1 up.
pub open spec fn coord_of_label(s: Seq<char>) -> Option<Coord> {
    if s.len() < 2 {
        None
    } else {
        match column_of(s[0]) {
            None => None,
            Some(x) => match parse_number(s.drop_first()) {
                None => None,
                Some(row) => if row == 0 {
                    None
                } else {
                    Some(Coord { x: x as usize, y: (row - 1) as usize })
                },
            },
        }
    }
}

/// Relies on `String::push`: appends the character.
#[verifier::external_body]
fn push_char(s: &mut String, c: char)
    ensures
        final(s)@ == old(s)@.push(c),
{
    s.push(c);
}

/// The characters as a `String`.
pub(crate) fn text_of(v: &Vec<char>) -> (r: String)
    ensures
        r@ == v@,
{
    let mut r = String::new();
    let mut i: usize = 0;
    while i < v.len()
        invariant
            i <= v@.len(),
            r@ == v@.subrange(0, i as int),
        decreases v@.len() - i,
    {
        push_char(&mut r, v[i]);
        i += 1;
        assert(r@ =~= v@.subrange(0, i as int));
    }
    assert(v@.subrange(0, v@.len() as int) =~= v@);
    r
}

/// The characters of `s`, in order.
pub(crate) fn chars_of(s: &str) -> (r: Vec<char>)
    ensures
        r@ == s@,
{
    broadcast use vstd::string::axiom_spec_iter, vstd::string::next_postcondition;

    let mut it = s.chars();
    let mut r: Vec<char> = Vec::new();
    loop
        invariant
            it.obeys_prophetic_iter_laws(),
            r@ + it.remaining() == s@,
        ensures
            r@ == s@,
        decreases s@.len() - r@.len(),
    {
        match it.next() {
            Some(c) => {
                r.push(c);
            },
            None => {
                assert(r@ =~= s@);
                break ;
            },
        }
    }
    r
}

fn column_char(x: usize) -> (r: char)
    ensures
        r == column_letter(x as int),
{
    if x == 0 {
        'A'
    } else if x == 1 {
        'B'
    } else if x == 2 {
        'C'
    } else if x == 3 {
        'D'
    } else if x == 4 {
        'E'
    } else if x == 5 {
        'F'
    } else if x == 6 {
        'G'
    } else if x == 7 {
        'H'
    } else if x == 8 {
        'I'
    } else if x == 9 {
        'J'
    } else if x == 10 {
        'K'
    } else if x == 11 {
        'L'
    } else if x == 12 {
        'M'
    } else if x == 13 {
        'N'
    } else if x == 14 {
        'O'
    } else {
        'A'
    }
}

fn digit(d: usize) -> (r: char)
    requires
        d < 10,
    ensures
        r == digit_char(d as int),
{
    if d == 0 {
        '0'
    } else if d == 1 {
        '1'
    } else if d == 2 {
        '2'
    } else if d == 3 {
        '3'
    } else if d == 4 {
        '4'
    } else if d == 5 {
        '5'
    } else if d == 6 {
        '6'
    } else if d == 7 {
        '7'
    } else if d == 8 {
        '8'
    } else {
        '9'
    }
}

/// Appends `n` in decimal to `out`.
pub(crate) fn push_decimal(out: &mut Vec<char>, n: u128)
    ensures
        final(out)@ == old(out)@ + decimal(n as nat),
    decreases n,
{
    if n < 10 {
        out.push(digit(n as usize));
        assert(decimal(n as nat) =~= seq![digit_char(n as int)]);
    } else {
        push_decimal(out, n / 10);
        out.push(digit((n % 10) as usize));
        assert(old(out)@ + decimal(n as nat) =~= old(out)@ + decimal((n / 10) as nat) + seq![
            digit_char((n % 10) as int),
        ]);
    }
}

fn push_str_chars(out: &mut Vec<char>, s: &str)
    ensures
        final(out)@ == old(out)@ + s@,
{
    let cs = chars_of(s);
    let mut i: usize = 0;
    while i < cs.len()
        invariant
            cs@ == s@,
            i <= cs@.len(),
            out@ == old(out)@ + cs@.subrange(0, i as int),
        decreases cs@.len() - i,
    {
        out.push(cs[i]);
        i += 1;
        assert(out@ =~= old(out)@ + cs@.subrange(0, i as int));
    }
    assert(cs@.subrange(0, cs@.len() as int) =~= cs@);
}

fn push_label(out: &mut Vec<char>, c: Coord)
    ensures
        final(out)@ == old(out)@ + label_of(c),
{
    out.push(column_char(c.x));
    push_decimal(out, c.y as u128 + 1);
    assert(old(out)@ + label_of(c) =~= old(out)@.push(column_letter(c.x as int)) + decimal((c.y + 1) as nat));
}

/// The label of `coord`, such as `H8` for `(7, 7)`.
pub fn coord_to_label(coord: Coord) -> (r: String)
    ensures
        r@ == label_of(coord),
{
    let mut out: Vec<char> = Vec::new();
    push_label(&mut out, coord);
    assert(out@ =~= label_of(coord));
    text_of(&out)
}

/// `B` or `W`.
pub fn player_label(player: Player) -> (r: &'static str)
    ensures
        r@ == (match player {
            Player::B => "B"@,
            Player::W => "W"@,
        }),
{
    match player {
        Player::B => "B",
        Player::W => "W",
    }
}

fn column_index(c: char) -> (r: Option<usize>)
    ensures
        r matches Some(x) ==> column_of(c) == Some(x as int),
        r is None ==> column_of(c) is None,
{
    if 'A' <= c && c <= 'O' {
        Some((c as u32 - 'A' as u32) as usize)
    } else if 'a' <= c && c <= 'o' {
        Some((c as u32 - 'a' as u32) as usize)
    } else {
        None
    }
}

/// Reads the number in `s[from..]` as Rust reads an unsigned integer.
fn parse_number_exec(s: &Vec<char>, from: usize) -> (r: Option<usize>)
    requires
        from <= s@.len(),
    ensures
        r matches Some(v) ==> parse_number(s@.subrange(from as int, s@.len() as int)) == Some(v as nat),
        r is None ==> parse_number(s@.subrange(from as int, s@.len() as int)) is None,
{
    let ghost t = s@.subrange(from as int, s@.len() as int);
    let mut start = from;
    if start < s.len() && s[start] == '+' {
        start = start + 1;
    }
    let ghost d = s@.subrange(start as int, s@.len() as int);
    proof {
        if t.len() > 0 && t[0] == '+' {
            assert(t.drop_first() =~= d);
        } else {
            assert(t =~= d);
        }
    }
    if start == s.len() {
        return None;
    }
    let mut value: usize = 0;
    let mut i = start;
    while i < s.len()
        invariant
            start <= i <= s@.len(),
            start < s@.len(),
            d == s@.subrange(start as int, s@.len() as int),
            parse_number(t) == digits_number(d),
            t == s@.subrange(from as int, s@.len() as int),
            forall|k: int| start <= k < i ==> is_digit(#[trigger] s@[k]),
            value as nat == digits_value(s@.subrange(start as int, i as int)),
        decreases s@.len() - i,
    {
        let c = s[i];
        if !('0' <= c && c <= '9') {
            proof {
                assert(d[i - start] == c);
                assert(!is_digit(d[i - start]));
            }
            return None;
        }
        let dv = (c as u32 - '0' as u32) as usize;
        proof {
            assert(s@.subrange(start as int, i + 1).drop_last() =~= s@.subrange(start as int, i as int));
        }
        if value > (usize::MAX - dv) / 10 {
            proof {
                assert forall|k: int| 0 <= k < i - start + 1 implies is_digit(#[trigger] d[k]) by {
                    assert(d[k] == s@[start + k]);
                }
                lemma_digits_prefix_grows(d, (i - start + 1) as int);
                assert(d.subrange(0, (i - start + 1) as int) =~= s@.subrange(start as int, i + 1));
                assert(d.subrange(0, d.len() as int) =~= d);
                assert(value * 10 + dv > usize::MAX) by (nonlinear_arith)
                    requires
                        value > (usize::MAX - dv) / 10,
                        dv < 10,
                ;
            }
            return None;
        }
        assert(value * 10 + dv <= usize::MAX) by (nonlinear_arith)
            requires
                value <= (usize::MAX - dv) / 10,
                dv < 10,
        ;
        value = value * 10 + dv;
        i += 1;
    }
    proof {
        assert forall|k: int| 0 <= k < d.len() implies is_digit(#[trigger] d[k]) by {
            assert(d[k] == s@[start + k]);
        }
    }
    Some(value)
}

/// The digits of a longer prefix are worth at least as much as those of a shorter one.
proof fn lemma_digits_prefix_grows(s: Seq<char>, n: int)
    requires
        0 <= n <= s.len(),
        forall|i: int| 0 <= i < n ==> is_digit(#[trigger] s[i]),
    ensures
        forall|m: int| n <= m <= s.len() && (forall|i: int| 0 <= i < m ==> is_digit(#[trigger] s[i])) ==> digits_value(
            s.subrange(0, m),
        ) >= digits_value(s.subrange(0, n)),
    decreases s.len() - n,
{
    if n < s.len() {
        assert forall|m: int| n <= m <= s.len() && (forall|i: int| 0 <= i < m ==> is_digit(#[trigger] s[i])) implies digits_value(
            s.subrange(0, m),
        ) >= digits_value(s.subrange(0, n)) by {
            if m > n {
                lemma_digits_prefix_grows(s, n + 1);
                assert(s.subrange(0, n + 1).drop_last() =~= s.subrange(0, n));
                assert(is_digit(s[n]));
            }
        }
    }
}

/// Reads the whole of `s` as Rust reads an unsigned integer.
pub(crate) fn parse_number_chars(s: &Vec<char>) -> (r: Option<usize>)
    ensures
        r matches Some(v) ==> parse_number(s@) == Some(v as nat),
        r is None ==> parse_number(s@) is None,
{
    assert(s@.subrange(0, s@.len() as int) =~= s@);
    parse_number_exec(s, 0)
}

/// The cell a label such as `H8` or `h8` names: a column letter `A` to `O`, then a row
/// number from 1 up.
pub fn parse_label(label: &str) -> (r: Option<Coord>)
    ensures
        r == coord_of_label(label@),
{
    let cs = chars_of(label);
    if cs.len() < 2 {
        return None;
    }
    let x = match column_index(cs[0]) {
        Some(x) => x,
        None => {
            return None;
        },
    };
    proof {
        assert(cs@.subrange(1, cs@.len() as int) =~= cs@.drop_first());
    }
    match parse_number_exec(&cs, 1) {
        None => None,
        Some(row) => if row == 0 {
            None
        } else {
            Some(Coord { x, y: row - 1 })
        },
    }
}

/// How a cell is drawn: `.` empty, `B` black, `W` white.
pub open spec fn cell_char(c: Option<Player>) -> char {
    match c {
        None => '.',
        Some(Player::B) => 'B',
        Some(Player::W) => 'W',
    }
}

/// The first `k` column letters, each followed by a space.
pub open spec fn header_cells(k: int) -> Seq<char>
    decreases k,
{
    if k <= 0 {
        Seq::empty()
    } else {
        header_cells(k - 1) + seq![column_letter(k - 1), ' ']
    }
}

/// The first `k` cells of row `y`, each followed by a space.
pub open spec fn row_cells(b: BoardView, y: int, k: int) -> Seq<char>
    decreases k,
{
    if k <= 0 {
        Seq::empty()
    } else {
        row_cells(b, y, k - 1) + seq![cell_char(b.get(k - 1, y)), ' ']
    }
}

/// A number right-aligned in two columns.
pub open spec fn pad2(d: Seq<char>) -> Seq<char> {
    if d.len() < 2 {
        seq![' '] + d
    } else {
        d
    }
}

/// Row `y` drawn as a line: its number, then its cells.
pub open spec fn row_line(b: BoardView, y: int) -> Seq<char> {
    pad2(decimal((y + 1) as nat)) + seq![' '] + row_cells(b, y, b.size as int) + seq!['\n']
}

/// The lines of rows `size - 1` down to `k`.
pub open spec fn rows_above(b: BoardView, k: int) -> Seq<char>
    decreases b.size - k,
{
    if k >= b.size {
        Seq::empty()
    } else {
        rows_above(b, k + 1) + row_line(b, k)
    }
}

/// The board as text: a line of column letters, then one line per row, the top row first.
pub open spec fn board_text(b: BoardView) -> Seq<char> {
    seq![' ', ' ', ' '] + header_cells(if b.size < COLUMN_LETTERS {
        b.size as int
    } else {
        COLUMN_LETTERS as int
    }) + seq!['\n'] + rows_above(b, 0)
}

/// Draws the board as text, the top row first, for a reader that sees only text.
pub fn render_board(board: &Board) -> (r: String)
    requires
        board.wf(),
    ensures
        r@ == board_text(board@),
{
    proof {
        lemma_wf_bounds(board@);
    }
    let size = board.size();
    let mut out: Vec<char> = Vec::new();
    out.push(' ');
    out.push(' ');
    out.push(' ');
    let letters = if size < COLUMN_LETTERS {
        size
    } else {
        COLUMN_LETTERS
    };
    let mut c: usize = 0;
    while c < letters
        invariant
            c <= letters,
            out@ == seq![' ', ' ', ' '] + header_cells(c as int),
        decreases letters - c,
    {
        out.push(column_char(c));
        out.push(' ');
        c += 1;
        assert(out@ =~= seq![' ', ' ', ' '] + header_cells(c as int));
    }
    out.push('\n');
    let ghost head = out@;
    assert(head =~= seq![' ', ' ', ' '] + header_cells(letters as int) + seq!['\n']);
    let mut row: usize = size;
    while row > 0
        invariant
            board.wf(),
            size == board@.size,
            size <= 32,
            row <= size,
            out@ == head + rows_above(board@, row as int),
        decreases row,
    {
        let y = row - 1;
        let ghost before = out@;
        if y + 1 < 10 {
            out.push(' ');
        }
        push_decimal(&mut out, y as u128 + 1);
        out.push(' ');
        let ghost mid = out@;
        proof {
            if y + 1 < 10 {
                assert(decimal((y + 1) as nat).len() == 1);
            } else {
                assert(decimal((y + 1) as nat) =~= decimal(((y + 1) / 10) as nat).push(
                    digit_char(((y + 1) % 10) as int),
                ));
                assert(decimal(((y + 1) / 10) as nat).len() >= 1);
            }
            assert(mid =~= before + pad2(decimal((y + 1) as nat)) + seq![' ']);
        }
        let mut x: usize = 0;
        while x < size
            invariant
                board.wf(),
                size == board@.size,
                y < size,
                x <= size,
                out@ == mid + row_cells(board@, y as int, x as int),
            decreases size - x,
        {
            let ch = match board.get(x, y) {
                None => '.',
                Some(Player::B) => 'B',
                Some(Player::W) => 'W',
            };
            out.push(ch);
            out.push(' ');
            x += 1;
            assert(out@ =~= mid + row_cells(board@, y as int, x as int));
        }
        out.push('\n');
        row = y;
        assert(out@ =~= head + rows_above(board@, row as int));
    }
    text_of(&out)
}

/// Items separated by `, `.
pub open spec fn join(items: Seq<Seq<char>>) -> Seq<char>
    decreases items.len(),
{
    if items.len() == 0 {
        Seq::empty()
    } else if items.len() == 1 {
        items[0]
    } else {
        join(items.drop_last()) + seq![',', ' '] + items.last()
    }
}

/// The labels of `p`'s stones among the first `k` cells, in row-major order.
pub open spec fn stone_labels(b: BoardView, p: Player, k: int) -> Seq<Seq<char>>
    decreases k,
{
    if k <= 0 {
        Seq::empty()
    } else if b.cells[k - 1] == Some(p) {
        stone_labels(b, p, k - 1).push(label_of(b.coord_of(k - 1)))
    } else {
        stone_labels(b, p, k - 1)
    }
}

/// `p`'s stones as a list of labels, or `none`.
pub open spec fn stones_text(b: BoardView, p: Player) -> Seq<char> {
    let l = stone_labels(b, p, b.cells.len() as int);
    if l.len() == 0 {
        "none"@
    } else {
        join(l)
    }
}

proof fn lemma_join_push(items: Seq<Seq<char>>, x: Seq<char>)
    ensures
        join(items.push(x)) == (if items.len() == 0 {
            x
        } else {
            join(items) + seq![',', ' '] + x
        }),
{
    assert(items.push(x).drop_last() =~= items);
}

fn push_stones(out: &mut Vec<char>, board: &Board, player: Player)
    requires
        board.wf(),
    ensures
        final(out)@ == old(out)@ + stones_text(board@, player),
{
    proof {
        lemma_wf_bounds(board@);
    }
    let n = board.size();
    let total = n * n;
    let mut body: Vec<char> = Vec::new();
    let mut count: usize = 0;
    let mut k: usize = 0;
    while k < total
        invariant
            board.wf(),
            n == board@.size,
            total == board@.cells.len(),
            n <= 32,
            k <= total,
            count == stone_labels(board@, player, k as int).len(),
            count <= k,
            body@ == join(stone_labels(board@, player, k as int)),
        decreases total - k,
    {
        proof {
            lemma_coord_of(board@, k as int);
        }
        let x = k % n;
        let y = k / n;
        match board.get(x, y) {
            Some(q) if q == player => {
                let ghost before = body@;
                if count > 0 {
                    body.push(',');
                    body.push(' ');
                }
                push_label(&mut body, Coord { x, y });
                proof {
                    lemma_join_push(stone_labels(board@, player, k as int), label_of(board@.coord_of(k as int)));
                    assert(body@ =~= join(stone_labels(board@, player, k as int + 1)));
                }
                count += 1;
            },
            _ => {},
        }
        k += 1;
    }
    if count == 0 {
        push_str_chars(out, "none");
    } else {
        let mut i: usize = 0;
        let ghost start = out@;
        while i < body.len()
            invariant
                i <= body@.len(),
                out@ == start + body@.subrange(0, i as int),
            decreases body@.len() - i,
        {
            out.push(body[i]);
            i += 1;
            assert(out@ =~= start + body@.subrange(0, i as int));
        }
        assert(body@.subrange(0, body@.len() as int) =~= body@);
    }
}

/// The labels of black's and of white's stones, each list `none` when empty.
pub fn list_stones(board: &Board) -> (r: (String, String))
    requires
        board.wf(),
    ensures
        r.0@ == stones_text(board@, Player::B),
        r.1@ == stones_text(board@, Player::W),
{
    let mut black: Vec<char> = Vec::new();
    push_stones(&mut black, board, Player::B);
    let mut white: Vec<char> = Vec::new();
    push_stones(&mut white, board, Player::W);
    assert(black@ =~= stones_text(board@, Player::B));
    assert(white@ =~= stones_text(board@, Player::W));
    (text_of(&black), text_of(&white))
}

/// One entry of the move history: number, label and side, as in `1. H8(B)`.
pub open spec fn history_item(i: int, mv: Move) -> Seq<char> {
    decimal((i + 1) as nat) + seq!['.', ' '] + label_of(Coord { x: mv.x, y: mv.y }) + seq!['('] + (match mv.player {
        Player::B => "B"@,
        Player::W => "W"@,
    }) + seq![')']
}

pub open spec fn history_items(moves: Seq<Move>, k: int) -> Seq<Seq<char>>
    decreases k,
{
    if k <= 0 {
        Seq::empty()
    } else {
        history_items(moves, k - 1).push(history_item(k - 1, moves[k - 1]))
    }
}

/// The moves played so far, or a note that none has been.
pub open spec fn history_text(moves: Seq<Move>) -> Seq<char> {
    if moves.len() == 0 {
        "None (opening move)"@
    } else {
        join(history_items(moves, moves.len() as int))
    }
}

/// The moves played so far as numbered labels, such as `1. H8(B), 2. J9(W)`.
pub fn format_move_history(moves: &[Move]) -> (r: String)
    ensures
        r@ == history_text(moves@),
{
    let mut out: Vec<char> = Vec::new();
    if moves.len() == 0 {
        push_str_chars(&mut out, "None (opening move)");
        assert(out@ =~= history_text(moves@));
        return text_of(&out);
    }
    let mut i: usize = 0;
    while i < moves.len()
        invariant
            i <= moves@.len(),
            out@ == join(history_items(moves@, i as int)),
        decreases moves@.len() - i,
    {
        let mv = moves[i];
        let ghost before = out@;
        if i > 0 {
            out.push(',');
            out.push(' ');
        }
        push_decimal(&mut out, i as u128 + 1);
        out.push('.');
        out.push(' ');
        push_label(&mut out, Coord { x: mv.x, y: mv.y });
        out.push('(');
        push_str_chars(&mut out, player_label(mv.player));
        out.push(')');
        proof {
            lemma_join_push(history_items(moves@, i as int), history_item(i as int, mv));
            assert(out@ =~= join(history_items(moves@, i as int + 1)));
        }
        i += 1;
    }
    text_of(&out)
}

/// Instructions for a text-based move proposer.
pub const SYSTEM_PROMPT: &'static str = "You are a Gomoku player. Board size 15x15.\nUse coordinates A\u{2013}O (columns) and 1\u{2013}15 (rows).\nYou must choose a move from the provided candidates list.\nPriority: (1) if you can win immediately, choose that move; (2) if the opponent can win immediately, block it; (3) otherwise choose the strongest candidate.\nRespond only with JSON: {\"move\":\"H8\"} where move is in candidates.\nIf no move possible, respond {\"move\":\"pass\"}.";

pub open spec fn side_name(p: Player) -> Seq<char> {
    match p {
        Player::B => "Black"@,
        Player::W => "White"@,
    }
}

/// The position as text for a move proposer: side to move, stones, history, the
/// candidate moves and the drawn board.
pub open spec fn prompt_text(b: BoardView, p: Player, moves: Seq<Move>, cands: Seq<Seq<char>>) -> Seq<char> {
    "To move: "@ + side_name(p) + "\nBlack stones: "@ + stones_text(b, Player::B) + "\nWhite stones: "@
        + stones_text(b, Player::W) + "\nMove history: "@ + history_text(moves) + "\nCandidates: "@ + join(cands)
        + "\nBoard (row 15 at top):\n"@ + board_text(b)
}

fn push_string(out: &mut Vec<char>, s: &String)
    ensures
        final(out)@ == old(out)@ + s@,
{
    push_str_chars(out, s.as_str());
}

/// The instructions and the position text for a move proposer that must pick one of
/// `candidates`.
pub fn build_prompt(board: &Board, player: Player, moves: &[Move], candidates: &[String]) -> (r: (String, String))
    requires
        board.wf(),
    ensures
        r.0@ == SYSTEM_PROMPT@,
        r.1@ == prompt_text(board@, player, moves@, candidates@.map_values(|c: String| c@)),
{
    let system = SYSTEM_PROMPT.to_owned();
    let mut out: Vec<char> = Vec::new();
    let ghost o0 = out@;
    push_str_chars(&mut out, "To move: ");
    match player {
        Player::B => push_str_chars(&mut out, "Black"),
        Player::W => push_str_chars(&mut out, "White"),
    }
    push_str_chars(&mut out, "\nBlack stones: ");
    push_stones(&mut out, board, Player::B);
    push_str_chars(&mut out, "\nWhite stones: ");
    push_stones(&mut out, board, Player::W);
    push_str_chars(&mut out, "\nMove history: ");
    let history = format_move_history(moves);
    push_string(&mut out, &history);
    push_str_chars(&mut out, "\nCandidates: ");
    let ghost cands = candidates@.map_values(|c: String| c@);
    let ghost before = out@;
    let mut i: usize = 0;
    while i < candidates.len()
        invariant
            i <= candidates@.len(),
            cands == candidates@.map_values(|c: String| c@),
            out@ == before + join(cands.subrange(0, i as int)),
        decreases candidates@.len() - i,
    {
        if i > 0 {
            out.push(',');
            out.push(' ');
        }
        push_string(&mut out, &candidates[i]);
        proof {
            assert(cands.subrange(0, i as int + 1) =~= cands.subrange(0, i as int).push(cands[i as int]));
            lemma_join_push(cands.subrange(0, i as int), cands[i as int]);
        }
        i += 1;
        assert(out@ =~= before + join(cands.subrange(0, i as int)));
    }
    assert(cands.subrange(0, candidates@.len() as int) =~= cands);
    push_str_chars(&mut out, "\nBoard (row 15 at top):\n");
    let drawn = render_board(board);
    push_string(&mut out, &drawn);
    assert(out@ =~= prompt_text(board@, player, moves@, cands));
    (system, text_of(&out))
}

} // verus!
