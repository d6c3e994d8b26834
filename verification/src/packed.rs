//! Positions in the packed format of the `bulletformat` crate.
//!
//! A packed position is relative to the side to move: that side's pieces are the white ones, and
//! the board is turned so that they move up.
use bulletformat::{BulletFormat, ChessBoard};
use vstd::prelude::*;

use crate::bits;
use crate::fen;

verus! {

/// The packed position itself; what it holds is told by the names below.
#[verifier::external_type_specification]
#[verifier::external_body]
pub struct ExChessBoard(ChessBoard);

/// The pieces of a packed position, square by square: the code of the piece and its square.
pub uninterp spec fn board_pieces(board: ChessBoard) -> Seq<(u8, u8)>;

/// The occupied squares of a packed position.
pub uninterp spec fn board_occ(board: ChessBoard) -> u64;

/// The score of a packed position.
pub uninterp spec fn board_score(board: ChessBoard) -> i16;

/// The result of a packed position: 0 for a loss, 1 for a draw, 2 for a win.
pub uninterp spec fn board_result(board: ChessBoard) -> usize;

/// The packed position that an entry of text stands for, if it stands for one.
pub uninterp spec fn parsed_board(entry: Seq<char>) -> Option<ChessBoard>;

/// Whether the list names the squares of `occ` in ascending order, each once, with codes of four
/// bits.
pub open spec fn is_listing(pieces: Seq<(u8, u8)>, occ: u64) -> bool {
    &&& pieces.len() == bits::count(occ)
    &&& forall|i: int|
        0 <= i < pieces.len() ==> (#[trigger] pieces[i]).0 < 16 && bits::member(
            occ,
            pieces[i].1 as int,
        )
    &&& forall|i: int, j: int| 0 <= i < j < pieces.len() ==> (#[trigger] pieces[i]).1 < (
        #[trigger] pieces[j]).1
}

/// Calls `ChessBoard::from_str`, which reads an entry of text: a FEN, the score and the result,
/// separated by bars. What it returns depends on the text alone; that it fails is kept, not why. A
/// piece beyond the last square, a ninth row where it is Black's turn, and Black's turn with a score
/// of -32768 make its arithmetic overflow.
#[verifier::external_body]
pub(crate) fn parse_board(entry: &Vec<char>) -> (r: Option<ChessBoard>)
    requires
        fen::in_range(entry@),
    ensures
        r == parsed_board(entry@),
{
    entry.iter().collect::<String>().parse::<ChessBoard>().ok()
}

/// Walks through a packed position with `ChessBoard::into_iter`, whose iterator yields the code of
/// the piece and the square of each occupied square, from the lowest to the highest. A position
/// has room for thirty-two codes; with more occupied squares the iterator panics.
#[verifier::external_body]
pub(crate) fn unpack(board: &ChessBoard) -> (r: Vec<(u8, u8)>)
    requires
        bits::count(board_occ(*board)) <= 32,
    ensures
        r@ == board_pieces(*board),
        is_listing(r@, board_occ(*board)),
{
    (*board).into_iter().collect()
}

/// Calls `ChessBoard::occ`, which returns the set of the occupied squares.
#[verifier::external_body]
pub(crate) fn occ(board: &ChessBoard) -> (r: u64)
    ensures
        r == board_occ(*board),
{
    board.occ()
}

/// Calls `BulletFormat::score`, which returns the score.
#[verifier::external_body]
pub(crate) fn score(board: &ChessBoard) -> (r: i16)
    ensures
        r == board_score(*board),
{
    BulletFormat::score(board)
}

/// Calls `BulletFormat::result_idx`, which returns the number of the result.
#[verifier::external_body]
pub(crate) fn result_idx(board: &ChessBoard) -> (r: usize)
    ensures
        r == board_result(*board),
{
    board.result_idx()
}

} // verus!
