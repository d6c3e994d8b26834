//! Positions as text: a FEN, and an entry of a FEN, a score and a result.
use vstd::prelude::*;

use crate::text;
use crate::text::CharClass;

verus! {

/// Whether it is Black's turn: the second word of the FEN is the letter `b`.
pub open spec fn is_black_to_move(fen: Seq<char>) -> bool {
    let second = text::drop_front(
        text::drop_front(text::drop_front(fen, CharClass::Space), CharClass::Word),
        CharClass::Space,
    );
    second.len() > 0 && second[0] == 'b' && (second.len() == 1 || text::is_space(second[1]))
}

/// Whether it is Black's turn.
pub fn black_to_move(fen: &Vec<char>) -> (r: bool)
    ensures
        r == is_black_to_move(fen@),
{
    let second: Vec<char> = text::skip_front(
        &text::skip_front(&text::skip_front(fen, CharClass::Space), CharClass::Word),
        CharClass::Space,
    );
    second.len() > 0 && second[0] == 'b' && (second.len() == 1 || CharClass::Space.has_char(
        second[1],
    ))
}

/// The entry of a position without a score, of a game that was drawn.
pub open spec fn entry_of(fen: Seq<char>) -> Seq<char> {
    fen + " | 0 | 0.5"@
}

/// The entry of a position without a score, of a game that was drawn.
pub fn make_entry(fen: &Vec<char>) -> (r: Vec<char>)
    ensures
        r@ == entry_of(fen@),
{
    let mut out: Vec<char> = text::part(fen, 0, fen.len());
    assert(out@ =~= fen@);
    text::append(&mut out, " | 0 | 0.5");
    out
}

/// The FEN of an entry: what stands before the first bar.
pub open spec fn fen_field(entry: Seq<char>) -> Seq<char> {
    text::parts(entry, '|')[0]
}

/// The first word of the FEN of an entry: the rows of the board.
pub open spec fn board_field(entry: Seq<char>) -> Seq<char> {
    text::front(text::drop_front(fen_field(entry), CharClass::Space), CharClass::Word)
}

/// Whether a letter stands for a piece.
pub open spec fn is_piece_letter(c: char) -> bool {
    ||| c == 'P'
    ||| c == 'N'
    ||| c == 'B'
    ||| c == 'R'
    ||| c == 'Q'
    ||| c == 'K'
    ||| c == 'p'
    ||| c == 'n'
    ||| c == 'b'
    ||| c == 'r'
    ||| c == 'q'
    ||| c == 'k'
}

/// How many columns a character of a row takes: a digit as many as it says, a piece one.
pub open spec fn width(c: char) -> nat {
    if '1' <= c <= '8' {
        (c as int - '0' as int) as nat
    } else if is_piece_letter(c) {
        1
    } else {
        0
    }
}

/// How many columns a row takes.
pub open spec fn columns(row: Seq<char>) -> nat
    decreases row.len(),
{
    if row.len() == 0 {
        0
    } else {
        columns(row.drop_last()) + width(row.last())
    }
}

/// Whether all the pieces of a row stand on the board, its first column being square `first`.
pub open spec fn row_fits(row: Seq<char>, first: int) -> bool {
    forall|k: int|
        0 <= k < row.len() && is_piece_letter(#[trigger] row[k]) ==> first + columns(row.take(k))
            < 64
}

/// The first square of the `i`th of `n` rows. Where it is White's turn the last row is the lowest
/// one; where it is Black's, the first row is the highest one.
pub open spec fn row_start(i: int, n: int, is_black: bool) -> int {
    if is_black {
        8 * (7 - i)
    } else {
        8 * (n - 1 - i)
    }
}

/// Whether the rows describe a board: all the pieces stand on one of its squares, and where it is
/// Black's turn there are no more than eight rows.
pub open spec fn board_fits(board: Seq<char>, is_black: bool) -> bool {
    let rows = text::parts(board, '/');
    &&& is_black ==> rows.len() <= 8
    &&& forall|i: int|
        0 <= i < rows.len() ==> row_fits(
            #[trigger] rows[i],
            row_start(i, rows.len() as int, is_black),
        )
}

/// Whether the score of an entry is -32768, the one that cannot be taken from the other side.
pub open spec fn has_lowest_score(entry: Seq<char>) -> bool {
    let fields = text::parts(entry, '|');
    let score = text::trimmed(fields[1]);
    &&& fields.len() > 1
    &&& score.len() > 0
    &&& score[0] == '-'
    &&& text::is_digits(score.skip(1))
    &&& text::value(score.skip(1)) == 32768
}

/// Whether an entry stays within the board and within the scores.
pub open spec fn in_range(entry: Seq<char>) -> bool {
    let is_black = is_black_to_move(fen_field(entry));
    board_fits(board_field(entry), is_black) && !(is_black && has_lowest_score(entry))
}

fn piece_letter(c: char) -> (r: bool)
    ensures
        r == is_piece_letter(c),
{
    c == 'P' || c == 'N' || c == 'B' || c == 'R' || c == 'Q' || c == 'K' || c == 'p' || c == 'n' || c
        == 'b' || c == 'r' || c == 'q' || c == 'k'
}

fn char_width(c: char) -> (r: usize)
    ensures
        r == width(c),
{
    if '1' <= c && c <= '8' {
        (c as u32 - '0' as u32) as usize
    } else if piece_letter(c) {
        1
    } else {
        0
    }
}

fn check_row(row: &Vec<char>, first: usize) -> (r: bool)
    requires
        first <= 64,
    ensures
        r == row_fits(row@, first as int),
{
    let mut column: usize = 0;
    let mut i: usize = 0;
    assert(row@.take(0) =~= Seq::empty());
    while i < row.len()
        invariant
            first <= 64,
            i <= row@.len(),
            column <= 72,
            columns(row@.take(i as int)) < 64 ==> column == columns(row@.take(i as int)),
            columns(row@.take(i as int)) >= 64 ==> column >= 64,
            forall|k: int|
                0 <= k < i && is_piece_letter(#[trigger] row@[k]) ==> first + columns(row@.take(k))
                    < 64,
        decreases row@.len() - i,
    {
        let c: char = row[i];
        if piece_letter(c) && first + column >= 64 {
            assert(is_piece_letter(row@[i as int]));
            return false;
        }
        assert(row@.take(i + 1).drop_last() =~= row@.take(i as int));
        if column < 64 {
            column = column + char_width(c);
        }
        i = i + 1;
    }
    true
}

/// Tells whether the rows describe a board.
pub fn check_board(board: &Vec<char>, is_black: bool) -> (r: bool)
    ensures
        r == board_fits(board@, is_black),
{
    let rows: Vec<Vec<char>> = text::split(board, '/');
    let ghost all = text::parts(board@, '/');
    let n: usize = rows.len();
    if is_black && n > 8 {
        return false;
    }
    let mut i: usize = 0;
    while i < n
        invariant
            i <= n,
            n == rows@.len(),
            all == text::texts(rows@),
            all == text::parts(board@, '/'),
            is_black ==> n <= 8,
            forall|j: int|
                0 <= j < i ==> row_fits(#[trigger] all[j], row_start(j, n as int, is_black)),
        decreases n - i,
    {
        let above: usize = if is_black {
            7 - i
        } else {
            n - 1 - i
        };
        let first: usize = if above < 8 {
            8 * above
        } else {
            64
        };
        assert(all[i as int] == rows@[i as int]@);
        assert(row_fits(all[i as int], first as int) == row_fits(
            all[i as int],
            row_start(i as int, n as int, is_black),
        ));
        if !check_row(&rows[i], first) {
            assert(!row_fits(all[i as int], row_start(i as int, n as int, is_black)));
            return false;
        }
        i = i + 1;
    }
    true
}

fn check_lowest_score(entry: &Vec<char>) -> (r: bool)
    ensures
        r == has_lowest_score(entry@),
{
    let fields: Vec<Vec<char>> = text::split(entry, '|');
    if fields.len() < 2 {
        return false;
    }
    assert(text::texts(fields@)[1] == fields@[1]@);
    let score: Vec<char> = text::trim(&fields[1]);
    if score.len() == 0 || score[0] != '-' {
        return false;
    }
    let digits: Vec<char> = text::part(&score, 1, score.len());
    assert(digits@ =~= score@.skip(1));
    if digits.len() == 0 || digits[0] == '+' {
        return false;
    }
    match text::parse_number(&digits) {
        Some(n) => n == 32768,
        None => false,
    }
}

/// Tells whether an entry stays within the board and within the scores.
pub fn check_entry(entry: &Vec<char>) -> (r: bool)
    ensures
        r == in_range(entry@),
{
    let fields: Vec<Vec<char>> = text::split(entry, '|');
    assert(text::texts(fields@)[0] == fields@[0]@);
    let is_black: bool = black_to_move(&fields[0]);
    let board: Vec<char> = text::take_front(
        &text::skip_front(&fields[0], CharClass::Space),
        CharClass::Word,
    );
    check_board(&board, is_black) && !(is_black && check_lowest_score(entry))
}

} // verus!
