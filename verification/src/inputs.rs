//! The features of training positions, for the side to move and for the other side.
use bulletformat::ChessBoard;
use vstd::prelude::*;

use crate::bits;
use crate::board;
use crate::board::{AresBoard, Position};
use crate::bounds;
use crate::features;
use crate::features::{Lookup, NUM_INPUTS, NUM_INPUTS_TEXT};
use crate::laws;
use crate::packed;
use crate::sorting;
use crate::turned;
use crate::types::{Bitboard, Color};

verus! {

/// How a game ended for the side to move.
#[derive(Copy, Clone, Eq, PartialEq, Structural, Debug)]
pub enum GameResult {
    Loss,
    Draw,
    Win,
}

impl GameResult {
    /// 0 for a loss, 1 for a draw, 2 for a win.
    pub open spec fn number(self) -> int {
        match self {
            GameResult::Loss => 0,
            GameResult::Draw => 1,
            GameResult::Win => 2,
        }
    }

    /// 0 for a loss, 1 for a draw, 2 for a win.
    pub fn index(self) -> (r: u8)
        ensures
            r == self.number(),
            r == 0 <==> self is Loss,
            r == 1 <==> self is Draw,
            r == 2 <==> self is Win,
    {
        match self {
            GameResult::Loss => 0,
            GameResult::Draw => 1,
            GameResult::Win => 2,
        }
    }

    /// The result with the given number.
    pub fn from_index(i: usize) -> (r: GameResult)
        requires
            i <= 2,
        ensures
            r.number() == i,
            r is Loss <==> i == 0,
            r is Draw <==> i == 1,
            r is Win <==> i == 2,
    {
        if i == 0 {
            GameResult::Loss
        } else if i == 1 {
            GameResult::Draw
        } else {
            GameResult::Win
        }
    }
}

/// A training position: a packed position and whether its side to move is Black. With the flag
/// unset the position is taken as it is packed, the side to move being White.
#[derive(Copy, Clone)]
pub struct AresChessBoard {
    pub board: ChessBoard,
    pub stm_is_black: bool,
}

/// Whether a packed position can be read: at most thirty-two pieces, all with codes of pieces.
pub open spec fn is_readable(board: ChessBoard) -> bool {
    bits::count(packed::board_occ(board)) <= 32 && board::are_pieces(packed::board_pieces(board))
}

impl AresChessBoard {
    /// The position with the pieces in their own colours.
    pub open spec fn position(self) -> Position {
        Position::of_sets(
            board::piece_sets(packed::board_pieces(self.board), self.stm_is_black),
        )
    }

    /// The colour of the side to move.
    pub open spec fn mover(self) -> Color {
        if self.stm_is_black {
            Color::Black
        } else {
            Color::White
        }
    }

    /// Whether the position can be read.
    pub open spec fn wf(self) -> bool {
        is_readable(self.board)
    }

    /// Whether the position can be read.
    pub fn is_valid(&self) -> (r: bool)
        ensures
            r == self.wf(),
            r <==> bits::count(packed::board_occ(self.board)) <= 32 && forall|i: int|
                0 <= i < packed::board_pieces(self.board).len() ==> (
                #[trigger] packed::board_pieces(self.board)[i]).0 % 8 < 6
                    && packed::board_pieces(self.board)[i].1 < 64,
            r ==> packed::is_listing(
                packed::board_pieces(self.board),
                packed::board_occ(self.board),
            ),
    {
        if Bitboard(packed::occ(&self.board)).popcount() > 32 {
            return false;
        }
        let pieces: Vec<(u8, u8)> = packed::unpack(&self.board);
        let mut i: usize = 0;
        while i < pieces.len()
            invariant
                i <= pieces@.len(),
                pieces@ == packed::board_pieces(self.board),
                packed::is_listing(pieces@, packed::board_occ(self.board)),
                forall|j: int| 0 <= j < i ==> (#[trigger] pieces@[j]).0 % 8 < 6 && pieces@[j].1 < 64,
            decreases pieces@.len() - i,
        {
            assert(bits::member(packed::board_occ(self.board), pieces@[i as int].1 as int));
            if pieces[i].0 % 8 >= 6 {
                return false;
            }
            i = i + 1;
        }
        true
    }

    /// Whether each side has exactly one king.
    pub fn has_both_kings(&self) -> (r: bool)
        requires
            self.wf(),
        ensures
            r == board::has_both_kings(packed::board_pieces(self.board)),
    {
        board::check_both_kings(&packed::unpack(&self.board))
    }

    /// Whether the result of the game is one of the three results.
    pub fn has_result(&self) -> (r: bool)
        ensures
            r == (packed::board_result(self.board) <= 2),
    {
        packed::result_idx(&self.board) <= 2
    }

    /// The score, as the side to move sees it.
    pub fn score(&self) -> (r: i16)
        ensures
            r == packed::board_score(self.board),
    {
        packed::score(&self.board)
    }

    /// The result of the game, as the side to move sees it.
    pub fn result(&self) -> (r: GameResult)
        requires
            packed::board_result(self.board) <= 2,
        ensures
            r.number() == packed::board_result(self.board),
            r is Loss <==> packed::board_result(self.board) == 0,
            r is Draw <==> packed::board_result(self.board) == 1,
            r is Win <==> packed::board_result(self.board) == 2,
    {
        GameResult::from_index(packed::result_idx(&self.board))
    }
}

/// The features of a position for the player of colour `pov`, in ascending order.
pub open spec fn sorted_features(p: Position, pov: Color) -> Seq<usize> {
    sorting::sorted(features::features_of(p, pov))
}

/// The features of a position for the side to move and for the other side, both in ascending
/// order, as pairs.
pub open spec fn feature_pairs(p: Position, mover: Color) -> Seq<(usize, usize)> {
    Seq::new(
        sorted_features(p, mover).len(),
        |i: int| (sorted_features(p, mover)[i], sorted_features(p, mover.opposite())[i]),
    )
}

/// The features of a position for one player, in ascending order.
fn sorted_features_for(lookup: &Lookup, board: &AresBoard, pov: Color) -> (r: Vec<usize>)
    ensures
        r@ == sorted_features(board@, pov),
{
    let mut out: Vec<usize> = features::features_for_pov(lookup, board, pov);
    let ghost before = out@;
    sorting::sort_unstable(&mut out);
    proof {
        sorting::lemma_sorted(before, out@);
    }
    out
}

/// Pairs up two lists of features, entry by entry, as far as both go.
pub fn zip_features(stm_feats: &Vec<usize>, ntm_feats: &Vec<usize>) -> (r: Vec<(usize, usize)>)
    ensures
        r@.len() == if stm_feats@.len() <= ntm_feats@.len() {
            stm_feats@.len()
        } else {
            ntm_feats@.len()
        },
        forall|i: int|
            0 <= i < r@.len() ==> #[trigger] r@[i] == (stm_feats@[i], ntm_feats@[i]),
{
    let mut out: Vec<(usize, usize)> = Vec::new();
    let mut i: usize = 0;
    while i < stm_feats.len() && i < ntm_feats.len()
        invariant
            i <= stm_feats@.len(),
            i <= ntm_feats@.len(),
            out@.len() == i,
            forall|j: int|
                0 <= j < i ==> #[trigger] out@[j] == (stm_feats@[j], ntm_feats@[j]),
        decreases stm_feats@.len() - i,
    {
        out.push((stm_feats[i], ntm_feats[i]));
        i = i + 1;
    }
    out
}

/// How many features of a position there is room for: eight for each of thirty-two pieces.
pub const MAX_ACTIVE: usize = 256;

/// The combined features: the pieces on their squares, in the buckets of the king, and the threats.
#[derive(Copy, Clone, Debug, Default)]
pub struct AresThreats;

impl AresThreats {
    /// How many features there are.
    pub fn num_inputs(&self) -> (r: usize)
        ensures
            r == NUM_INPUTS,
    {
        NUM_INPUTS
    }

    /// How many features of a position there is room for.
    pub fn max_active(&self) -> (r: usize)
        ensures
            r == MAX_ACTIVE,
    {
        MAX_ACTIVE
    }

    /// The features of a training position, for the side to move and for the other side, both in
    /// ascending order, as pairs.
    pub fn map_features(&self, lookup: &Lookup, pos: &AresChessBoard) -> (r: Vec<(usize, usize)>)
        requires
            pos.wf(),
        ensures
            r@ == feature_pairs(pos.position(), pos.mover()),
            r@.len() <= MAX_ACTIVE,
            ({
                let p = Position::of_sets(
                    board::piece_sets(packed::board_pieces(pos.board), pos.stm_is_black),
                );
                let (stm, ntm) = if pos.stm_is_black {
                    (Color::Black, Color::White)
                } else {
                    (Color::White, Color::Black)
                };
                let (own, other) = (features::features_of(p, stm), features::features_of(p, ntm));
                &&& r@.len() == own.len()
                &&& r@.len() == other.len()
                &&& Seq::new(r@.len(), |i: int| r@[i].0).to_multiset() == own.to_multiset()
                &&& Seq::new(r@.len(), |i: int| r@[i].1).to_multiset() == other.to_multiset()
                &&& forall|i: int, j: int|
                    0 <= i < j < r@.len() ==> (#[trigger] r@[i]).0 <= (#[trigger] r@[j]).0
                        && r@[i].1 <= r@[j].1
            }),
    {
        let board: AresBoard = AresBoard::from_bullet(&pos.board, pos.stm_is_black);
        let (stm, ntm): (Color, Color) = if pos.stm_is_black {
            (Color::Black, Color::White)
        } else {
            (Color::White, Color::Black)
        };
        let stm_feats: Vec<usize> = sorted_features_for(lookup, &board, stm);
        let ntm_feats: Vec<usize> = sorted_features_for(lookup, &board, ntm);
        let r: Vec<(usize, usize)> = zip_features(&stm_feats, &ntm_feats);
        proof {
            lemma_same_length(board@, stm);
            bounds::lemma_features_per_piece(board@, stm);
            sorting::lemma_sorted_keeps(features::features_of(board@, stm));
            assert(r@ =~= feature_pairs(board@, stm));
            sorting::lemma_sorted_keeps(features::features_of(board@, ntm));
            assert(Seq::new(r@.len(), |i: int| r@[i].0) =~= stm_feats@);
            assert(Seq::new(r@.len(), |i: int| r@[i].1) =~= ntm_feats@);
        }
        r
    }

    /// A short name of the inputs: their number.
    pub fn shorthand(&self) -> (r: String)
        ensures
            r@ == features::decimal(NUM_INPUTS as nat),
    {
        proof {
            features::lemma_num_inputs_text();
        }
        NUM_INPUTS_TEXT.to_owned()
    }

    /// A description of the inputs.
    pub fn description(&self) -> (r: String)
        ensures
            r@ == "Ares combined PST (king-bucketed) + threat features, engine-parity"@,
    {
        "Ares combined PST (king-bucketed) + threat features, engine-parity".to_owned()
    }

    /// The pairs of features of a training position, in the order in which `map_features` gives
    /// them.
    pub fn map_pairs(lookup: &Lookup, board: &AresChessBoard) -> (r: Vec<(usize, usize)>)
        requires
            board.wf(),
        ensures
            r@ == feature_pairs(board.position(), board.mover()),
            r@.len() <= MAX_ACTIVE,
            ({
                let p = Position::of_sets(
                    board::piece_sets(packed::board_pieces(board.board), board.stm_is_black),
                );
                let (stm, ntm) = if board.stm_is_black {
                    (Color::Black, Color::White)
                } else {
                    (Color::White, Color::Black)
                };
                let (own, other) = (features::features_of(p, stm), features::features_of(p, ntm));
                &&& r@.len() == own.len()
                &&& r@.len() == other.len()
                &&& Seq::new(r@.len(), |i: int| r@[i].0).to_multiset() == own.to_multiset()
                &&& Seq::new(r@.len(), |i: int| r@[i].1).to_multiset() == other.to_multiset()
                &&& forall|i: int, j: int|
                    0 <= i < j < r@.len() ==> (#[trigger] r@[i]).0 <= (#[trigger] r@[j]).0
                        && r@[i].1 <= r@[j].1
            }),
    {
        AresThreats.map_features(lookup, board)
    }

    /// The pairs of features of a training position, or `None` if it cannot be read.
    pub fn checked_pairs(lookup: &Lookup, board: &AresChessBoard) -> (r: Option<
        Vec<(usize, usize)>,
    >)
        ensures
            r is Some <==> board.wf(),
            r matches Some(pairs) ==> pairs@ == feature_pairs(board.position(), board.mover()),
    {
        if board.is_valid() {
            Some(Self::map_pairs(lookup, board))
        } else {
            None
        }
    }

    /// The features of a training position for White or for Black, in ascending order.
    pub fn features(lookup: &Lookup, board: &AresChessBoard, pov_white: bool) -> (r: Vec<usize>)
        requires
            board.wf(),
        ensures
            r@ == sorted_features(
                board.position(),
                if pov_white {
                    Color::White
                } else {
                    Color::Black
                },
            ),
            ({
                let p = Position::of_sets(
                    board::piece_sets(packed::board_pieces(board.board), board.stm_is_black),
                );
                let all = if pov_white {
                    features::features_of(p, Color::White)
                } else {
                    features::features_of(p, Color::Black)
                };
                &&& r@.to_multiset() == all.to_multiset()
                &&& forall|i: int, j: int| 0 <= i < j < r@.len() ==> r@[i] <= r@[j]
            }),
    {
        let abs: AresBoard = AresBoard::from_bullet(&board.board, board.stm_is_black);
        let pov: Color = if pov_white {
            Color::White
        } else {
            Color::Black
        };
        proof {
            sorting::lemma_sorted_keeps(features::features_of(abs@, pov));
        }
        sorted_features_for(lookup, &abs, pov)
    }
}

/// Both players have the same number of features, so no feature is without a partner.
pub proof fn lemma_same_length(p: Position, mover: Color)
    requires
        p.wf(),
    ensures
        sorted_features(p, mover).len() == sorted_features(p, mover.opposite()).len(),
{
    laws::lemma_same_number_of_features(p);
    sorting::lemma_sorted_keeps(features::features_of(p, mover));
    sorting::lemma_sorted_keeps(features::features_of(p, mover.opposite()));
}

/// The pairs hold all the features for the side to move and all those for the other side.
pub proof fn lemma_pairs_lists(pos: AresChessBoard)
    ensures
        ({
            let pairs = feature_pairs(pos.position(), pos.mover());
            &&& sorted_features(pos.position(), pos.mover()) == Seq::new(
                pairs.len(),
                |i: int| pairs[i].0,
            )
            &&& sorted_features(pos.position(), pos.mover().opposite()) == Seq::new(
                pairs.len(),
                |i: int| pairs[i].1,
            )
        }),
{
    board::lemma_of_sets_wf(
        board::piece_sets(packed::board_pieces(pos.board), pos.stm_is_black),
    );
    lemma_same_length(pos.position(), pos.mover());
}

/// The pairs of a training position: the features of the position with the pieces in their own
/// colours, for the side to move and for the other side, each list in ascending order.
pub proof fn lemma_pairs_meaning(pos: AresChessBoard)
    ensures
        ({
            let p = Position::of_sets(
                board::piece_sets(packed::board_pieces(pos.board), pos.stm_is_black),
            );
            let (stm, ntm) = if pos.stm_is_black {
                (Color::Black, Color::White)
            } else {
                (Color::White, Color::Black)
            };
            let (own, other) = (features::features_of(p, stm), features::features_of(p, ntm));
            let pairs = feature_pairs(pos.position(), pos.mover());
            &&& pairs.len() == own.len()
            &&& pairs.len() == other.len()
            &&& Seq::new(pairs.len(), |i: int| pairs[i].0).to_multiset() == own.to_multiset()
            &&& Seq::new(pairs.len(), |i: int| pairs[i].1).to_multiset() == other.to_multiset()
            &&& forall|i: int, j: int|
                0 <= i < j < pairs.len() ==> (#[trigger] pairs[i]).0 <= (#[trigger] pairs[j]).0
                    && pairs[i].1 <= pairs[j].1
        }),
{
    let (p, mover) = (pos.position(), pos.mover());
    board::lemma_of_sets_wf(
        board::piece_sets(packed::board_pieces(pos.board), pos.stm_is_black),
    );
    lemma_same_length(p, mover);
    let pairs = feature_pairs(p, mover);
    sorting::lemma_sorted_keeps(features::features_of(p, mover));
    sorting::lemma_sorted_keeps(features::features_of(p, mover.opposite()));
    assert(Seq::new(pairs.len(), |i: int| pairs[i].0) =~= sorted_features(p, mover));
    assert(Seq::new(pairs.len(), |i: int| pairs[i].1) =~= sorted_features(p, mover.opposite()));
}

/// All the features in the pairs are inputs.
pub proof fn lemma_pairs_range(pos: AresChessBoard)
    ensures
        forall|i: int|
            0 <= i < feature_pairs(pos.position(), pos.mover()).len() ==> {
                let pair = #[trigger] feature_pairs(pos.position(), pos.mover())[i];
                pair.0 < NUM_INPUTS && pair.1 < NUM_INPUTS
            },
{
    let (p, mover) = (pos.position(), pos.mover());
    board::lemma_of_sets_wf(
        board::piece_sets(packed::board_pieces(pos.board), pos.stm_is_black),
    );
    lemma_same_length(p, mover);
    assert forall|i: int| 0 <= i < feature_pairs(p, mover).len() implies {
        let pair = #[trigger] feature_pairs(p, mover)[i];
        pair.0 < NUM_INPUTS && pair.1 < NUM_INPUTS
    } by {
        lemma_sorted_range(p, mover, i);
        lemma_sorted_range(p, mover.opposite(), i);
    }
}

/// Every feature is one of the inputs.
pub proof fn lemma_sorted_range(p: Position, pov: Color, i: int)
    requires
        p.wf(),
        0 <= i < sorted_features(p, pov).len(),
    ensures
        sorted_features(p, pov)[i] < NUM_INPUTS,
{
    let v = sorted_features(p, pov)[i];
    sorting::lemma_sorted_keeps(features::features_of(p, pov));
    assert(sorted_features(p, pov).contains(v));
    assert(features::features_of(p, pov).contains(v));
    laws::lemma_feature_range(p, pov, v);
}

/// Sorting keeps the set of the features.
pub proof fn lemma_sorted_members(p: Position, pov: Color)
    ensures
        sorted_features(p, pov).to_set() == features::features_of(p, pov).to_set(),
{
    let (a, b) = (sorted_features(p, pov), features::features_of(p, pov));
    sorting::lemma_sorted_keeps(b);
    assert forall|v: usize| a.to_set().contains(v) <==> b.to_set().contains(v) by {
        assert(a.contains(v) <==> b.contains(v));
    }
    assert(a.to_set() =~= b.to_set());
}

/// The features for the side to move do not depend on its colour: a packed position has the same
/// pairs of features whether it is read as White's to move or as Black's to move, as long as each
/// side has exactly one king.
pub proof fn lemma_same_pairs_for_both_colours(pieces: Seq<(u8, u8)>)
    requires
        board::are_pieces(pieces),
        board::squares_distinct(pieces),
        board::has_both_kings(pieces),
    ensures
        ({
            let p = Position::of_sets(board::piece_sets(pieces, false));
            let q = Position::of_sets(board::piece_sets(pieces, true));
            &&& sorted_features(p, Color::White) == sorted_features(q, Color::Black)
            &&& sorted_features(p, Color::Black) == sorted_features(q, Color::White)
            &&& feature_pairs(p, Color::White) == feature_pairs(q, Color::Black)
        }),
{
    let p = Position::of_sets(board::piece_sets(pieces, false));
    let q = Position::of_sets(board::piece_sets(pieces, true));
    board::lemma_of_sets_wf(board::piece_sets(pieces, false));
    board::lemma_of_sets_wf(board::piece_sets(pieces, true));
    turned::lemma_turned_reading(pieces);
    turned::lemma_turned_features(p, q, Color::White);
    turned::lemma_turned_features(p, q, Color::Black);
    sorting::lemma_sorted_same(
        features::features_of(p, Color::White),
        features::features_of(q, Color::Black),
    );
    sorting::lemma_sorted_same(
        features::features_of(p, Color::Black),
        features::features_of(q, Color::White),
    );
    assert(feature_pairs(p, Color::White) =~= feature_pairs(q, Color::Black));
}

/// The features of a packed position for the side to move and for the other side are those of the
/// position with the pieces in their own colours, whichever colour the side to move has, as long as
/// each side has exactly one king.
pub proof fn lemma_training_frame(board: ChessBoard)
    requires
        is_readable(board),
        packed::is_listing(packed::board_pieces(board), packed::board_occ(board)),
        board::has_both_kings(packed::board_pieces(board)),
    ensures
        ({
            let relative = AresChessBoard { board, stm_is_black: false };
            let black = AresChessBoard { board, stm_is_black: true };
            &&& sorted_features(relative.position(), Color::White) == sorted_features(
                black.position(),
                Color::Black,
            )
            &&& sorted_features(relative.position(), Color::Black) == sorted_features(
                black.position(),
                Color::White,
            )
            &&& feature_pairs(relative.position(), relative.mover()) == feature_pairs(
                black.position(),
                black.mover(),
            )
        }),
{
    lemma_same_pairs_for_both_colours(packed::board_pieces(board));
}

/// The bucket of the output, by the number of pieces on the board.
pub const OUTPUT_BUCKETS_LAYOUT: [u8; 33] = [
    0, 0, 0, 0, 0, 0, 0, 0, 0,
    1, 1, 1, 1,
    2, 2, 2, 2,
    3, 3, 3,
    4, 4, 4,
    5, 5, 5,
    6, 6, 6,
    7, 7, 7, 7,
];

/// The buckets of the output.
#[derive(Copy, Clone, Default)]
pub struct AresOutputBuckets;

impl AresOutputBuckets {
    /// How many buckets there are.
    pub const BUCKETS: usize = 8;

    /// The bucket of a training position.
    pub fn bucket(&self, pos: &AresChessBoard) -> (r: u8)
        requires
            bits::count(packed::board_occ(pos.board)) <= 32,
        ensures
            r == OUTPUT_BUCKETS_LAYOUT[bits::count(packed::board_occ(pos.board)) as int],
            r < Self::BUCKETS,
            ({
                let n = bits::count(packed::board_occ(pos.board));
                r == if n <= 8 {
                    0int
                } else if n <= 16 {
                    (n - 5) / 4
                } else if n <= 31 {
                    (n - 8) / 3
                } else {
                    7
                }
            }),
    {
        let n: u32 = Bitboard(packed::occ(&pos.board)).popcount();
        proof {
            lemma_bucket_range(n as int);
        }
        OUTPUT_BUCKETS_LAYOUT[n as usize]
    }
}

/// Every bucket is one of the eight buckets.
pub proof fn lemma_bucket_range(n: int)
    requires
        0 <= n <= 32,
    ensures
        OUTPUT_BUCKETS_LAYOUT[n] < 8,
        OUTPUT_BUCKETS_LAYOUT[n] == if n <= 8 {
            0int
        } else if n <= 16 {
            (n - 5) / 4
        } else if n <= 31 {
            (n - 8) / 3
        } else {
            7
        },
{
    let l = OUTPUT_BUCKETS_LAYOUT;
    if n < 9 {
        assert(n == 0 || n == 1 || n == 2 || n == 3 || n == 4 || n == 5 || n == 6 || n == 7 || n
            == 8);
    } else if n < 20 {
        assert(n == 9 || n == 10 || n == 11 || n == 12 || n == 13 || n == 14 || n == 15 || n == 16
            || n == 17 || n == 18 || n == 19);
    } else {
        assert(n == 20 || n == 21 || n == 22 || n == 23 || n == 24 || n == 25 || n == 26 || n == 27
            || n == 28 || n == 29 || n == 30 || n == 31 || n == 32);
    }
}

} // verus!
