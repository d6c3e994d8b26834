//! Records of the positions of a list, and whether they replay the features of the positions.
use bulletformat::ChessBoard;
use vstd::prelude::*;
use vstd::seq_lib::*;

use crate::board;
use crate::board::Position;
use crate::corpus;
use crate::features;
use crate::features::Lookup;
use crate::inputs;
use crate::inputs::{AresChessBoard, AresThreats};
use crate::packed;
use crate::premapped;
use crate::premapped::{AresPremapped, AresThreatsPre, NNZ};
use crate::text;
use crate::types::Color;

verus! {

/// The pairs of features of a packed position, taken as it is packed.
pub open spec fn board_pairs(board: ChessBoard) -> Seq<(usize, usize)> {
    let pos = AresChessBoard { board, stm_is_black: false };
    inputs::feature_pairs(pos.position(), pos.mover())
}

/// Whether a FEN stands for a position that has a record.
pub open spec fn has_record(fen: Seq<char>) -> bool {
    corpus::fen_board(fen) is Some && packed::board_result(corpus::fen_board(fen)->0) <= 2
}

/// Computes the pairs of features of the position that a FEN stands for, and its record.
pub fn fen_record(lookup: &Lookup, fen: &Vec<char>) -> (r: Option<
    (Vec<(usize, usize)>, AresPremapped),
>)
    ensures
        r is Some <==> has_record(fen@),
        r matches Some(found) ==> {
            &&& found.0@ == board_pairs(corpus::fen_board(fen@)->0)
            &&& premapped::is_record_of(found.1, corpus::fen_board(fen@)->0)
        },
{
    match corpus::fen_position(fen) {
        Some(own) => {
            let pos: AresChessBoard = AresChessBoard { board: own.board, stm_is_black: false };
            if !pos.has_result() {
                return None;
            }
            let pairs: Vec<(usize, usize)> = AresThreats::map_pairs(lookup, &pos);
            let (record, _): (AresPremapped, bool) = premapped::premap(lookup, &pos.board);
            Some((pairs, record))
        },
        None => None,
    }
}

/// Computes the pairs of features and the records of all the positions of a list, or returns `None`
/// if one of its FENs stands for no position with a record.
pub fn corpus_records(lookup: &Lookup, s: &Vec<char>) -> (r: Option<
    (Vec<Vec<(usize, usize)>>, Vec<AresPremapped>),
>)
    ensures
        ({
            let fens = corpus::fens_in(corpus::lines(s@));
            &&& r is Some <==> forall|i: int|
                0 <= i < fens.len() ==> has_record(#[trigger] fens[i])
            &&& r matches Some(found) ==> {
                &&& found.0@.len() == fens.len()
                &&& found.1@.len() == fens.len()
                &&& forall|i: int|
                    0 <= i < fens.len() ==> (#[trigger] found.0@[i])@ == board_pairs(
                        corpus::fen_board(fens[i])->0,
                    )
                &&& forall|i: int|
                    0 <= i < fens.len() ==> premapped::is_record_of(
                        #[trigger] found.1@[i],
                        corpus::fen_board(fens[i])->0,
                    )
            }
        }),
{
    let fens: Vec<Vec<char>> = corpus::parse_fens(s);
    let ghost all = corpus::fens_in(corpus::lines(s@));
    let mut direct: Vec<Vec<(usize, usize)>> = Vec::new();
    let mut records: Vec<AresPremapped> = Vec::new();
    let mut i: usize = 0;
    while i < fens.len()
        invariant
            i <= fens@.len(),
            all == corpus::fens_in(corpus::lines(s@)),
            all == text::texts(fens@),
            direct@.len() == i,
            records@.len() == i,
            forall|j: int| 0 <= j < i ==> has_record(#[trigger] all[j]),
            forall|j: int|
                0 <= j < i ==> (#[trigger] direct@[j])@ == board_pairs(corpus::fen_board(all[j])->0),
            forall|j: int|
                0 <= j < i ==> premapped::is_record_of(
                    #[trigger] records@[j],
                    corpus::fen_board(all[j])->0,
                ),
        decreases fens@.len() - i,
    {
        assert(all[i as int] == fens@[i as int]@);
        match fen_record(lookup, &fens[i]) {
            Some((pairs, record)) => {
                direct.push(pairs);
                records.push(record);
            },
            None => {
                assert(!has_record(all[i as int]));
                return None;
            },
        }
        i = i + 1;
    }
    Some((direct, records))
}

/// Counts how often a pair occurs in a list.
fn count_pair(v: &Vec<(usize, usize)>, pair: (usize, usize)) -> (r: usize)
    ensures
        r == v@.to_multiset().count(pair),
{
    broadcast use group_to_multiset_ensures;

    let mut n: usize = 0;
    let mut i: usize = 0;
    assert(v@.take(0) =~= Seq::empty());
    while i < v.len()
        invariant
            i <= v@.len(),
            n <= i,
            n == v@.take(i as int).to_multiset().count(pair),
        decreases v@.len() - i,
    {
        broadcast use group_to_multiset_ensures;

        assert(v@.take(i + 1) =~= v@.take(i as int).push(v@[i as int]));
        let (a, b): (usize, usize) = v[i];
        if a == pair.0 && b == pair.1 {
            n = n + 1;
        }
        i = i + 1;
    }
    assert(v@.take(i as int) =~= v@);
    n
}

/// Whether the pairs of one list occur as often in another one.
fn check_counts(a: &Vec<(usize, usize)>, b: &Vec<(usize, usize)>) -> (r: bool)
    ensures
        r == forall|i: int|
            0 <= i < a@.len() ==> a@.to_multiset().count(#[trigger] a@[i])
                == b@.to_multiset().count(a@[i]),
{
    let mut i: usize = 0;
    while i < a.len()
        invariant
            i <= a@.len(),
            forall|j: int|
                0 <= j < i ==> a@.to_multiset().count(#[trigger] a@[j])
                    == b@.to_multiset().count(a@[j]),
        decreases a@.len() - i,
    {
        if count_pair(a, a[i]) != count_pair(b, a[i]) {
            assert(a@.to_multiset().count(a@[i as int]) != b@.to_multiset().count(a@[i as int]));
            return false;
        }
        i = i + 1;
    }
    true
}

/// Whether two lists hold the same pairs, each as often, in whatever order.
pub fn have_same_pairs(a: &Vec<(usize, usize)>, b: &Vec<(usize, usize)>) -> (r: bool)
    ensures
        r == (a@.to_multiset() == b@.to_multiset()),
{
    let r: bool = check_counts(a, b) && check_counts(b, a);
    proof {
        broadcast use group_to_multiset_ensures;

        let (x, y) = (a@.to_multiset(), b@.to_multiset());
        if r {
            assert forall|v: (usize, usize)| x.count(v) == y.count(v) by {
                if a@.contains(v) {
                    let i = choose|i: int| 0 <= i < a@.len() && a@[i] == v;
                    assert(x.count(a@[i]) == y.count(a@[i]));
                } else if b@.contains(v) {
                    let i = choose|i: int| 0 <= i < b@.len() && b@[i] == v;
                    assert(y.count(b@[i]) == x.count(b@[i]));
                }
            }
            assert(x =~= y);
        }
    }
    r
}

/// How many records replay other pairs than those listed for them.
pub open spec fn mismatches(direct: Seq<Vec<(usize, usize)>>, records: Seq<AresPremapped>) -> nat
    decreases direct.len(),
{
    if direct.len() == 0 {
        0
    } else {
        mismatches(direct.drop_last(), records.drop_last()) + if direct.last()@.to_multiset()
            == records.last().pairs().to_multiset() {
            0nat
        } else {
            1nat
        }
    }
}

/// Counts the records that replay other pairs than those listed for them, or returns `None` if the
/// lists are not equally long or a record claims more pairs than there is room for.
pub fn count_mismatches(
    direct: &Vec<Vec<(usize, usize)>>,
    records: &Vec<AresPremapped>,
) -> (r: Option<usize>)
    ensures
        r is Some <==> direct@.len() == records@.len() && forall|i: int|
            0 <= i < records@.len() ==> (#[trigger] records@[i]).n <= NNZ,
        r matches Some(n) ==> n == mismatches(direct@, records@),
        r matches Some(n) ==> n == Seq::new(
            direct@.len(),
            |i: int| direct@[i]@.to_multiset() == records@[i].pairs().to_multiset(),
        ).filter(|same: bool| !same).len(),
        r == Some(0usize) ==> forall|i: int|
            0 <= i < direct@.len() ==> (#[trigger] direct@[i])@.to_multiset()
                == records@[i].pairs().to_multiset(),
{
    if direct.len() != records.len() {
        return None;
    }
    let mut n: usize = 0;
    let mut i: usize = 0;
    while i < direct.len()
        invariant
            i <= direct@.len(),
            direct@.len() == records@.len(),
            n <= i,
            n == mismatches(direct@.take(i as int), records@.take(i as int)),
            forall|j: int| 0 <= j < i ==> (#[trigger] records@[j]).n <= NNZ,
        decreases direct@.len() - i,
    {
        if records[i].n as usize > NNZ {
            return None;
        }
        proof {
            assert(direct@.take(i + 1).drop_last() =~= direct@.take(i as int));
            assert(records@.take(i + 1).drop_last() =~= records@.take(i as int));
        }
        let replayed: Vec<(usize, usize)> = AresThreatsPre.map_features(&records[i]);
        if !have_same_pairs(&direct[i], &replayed) {
            n = n + 1;
        }
        i = i + 1;
    }
    assert(direct@.take(i as int) =~= direct@);
    assert(records@.take(i as int) =~= records@);
    proof {
        lemma_mismatches(direct@, records@);
    }
    Some(n)
}

/// The mismatches are the places where a record replays other pairs than those listed for it; there
/// are none exactly when all the records replay their pairs.
pub proof fn lemma_mismatches(direct: Seq<Vec<(usize, usize)>>, records: Seq<AresPremapped>)
    requires
        direct.len() == records.len(),
    ensures
        mismatches(direct, records) == Seq::new(
            direct.len(),
            |i: int| direct[i]@.to_multiset() == records[i].pairs().to_multiset(),
        ).filter(|same: bool| !same).len(),
        mismatches(direct, records) == 0 <==> forall|i: int|
            0 <= i < direct.len() ==> (#[trigger] direct[i])@.to_multiset()
                == records[i].pairs().to_multiset(),
    decreases direct.len(),
{
    reveal(Seq::filter);
    let all = Seq::new(
        direct.len(),
        |i: int| direct[i]@.to_multiset() == records[i].pairs().to_multiset(),
    );
    if direct.len() > 0 {
        let (c, d) = (direct.drop_last(), records.drop_last());
        lemma_mismatches(c, d);
        let fewer = Seq::new(
            c.len(),
            |i: int| c[i]@.to_multiset() == d[i].pairs().to_multiset(),
        );
        assert(all.drop_last() =~= fewer);
        assert(direct.last() == direct[direct.len() - 1]);
        assert(records.last() == records[direct.len() - 1]);
        assert(all.last() == (direct.last()@.to_multiset()
            == records.last().pairs().to_multiset()));
        assert(forall|i: int| 0 <= i < c.len() ==> #[trigger] c[i] == direct[i]);
        if mismatches(direct, records) == 0 {
            assert forall|i: int| 0 <= i < direct.len() implies (
            #[trigger] direct[i])@.to_multiset() == records[i].pairs().to_multiset() by {
                if i < c.len() {
                    assert(c[i] == direct[i]);
                }
            }
        }
    }
}

/// The pairs of a packed position: its features as it is packed, for the side to move and for the
/// other side, each list in ascending order.
pub proof fn lemma_board_pairs(board: ChessBoard)
    ensures
        ({
            let p = Position::of_sets(board::piece_sets(packed::board_pieces(board), false));
            let (own, other) = (
                features::features_of(p, Color::White),
                features::features_of(p, Color::Black),
            );
            let pairs = board_pairs(board);
            &&& pairs.len() == own.len()
            &&& Seq::new(pairs.len(), |i: int| pairs[i].0).to_multiset() == own.to_multiset()
            &&& Seq::new(pairs.len(), |i: int| pairs[i].1).to_multiset() == other.to_multiset()
            &&& forall|i: int, j: int|
                0 <= i < j < pairs.len() ==> (#[trigger] pairs[i]).0 <= (#[trigger] pairs[j]).0
                    && pairs[i].1 <= pairs[j].1
        }),
{
    inputs::lemma_pairs_meaning(AresChessBoard { board, stm_is_black: false });
}

/// How many lists have more pairs than a record has room for.
pub open spec fn overfull(direct: Seq<Vec<(usize, usize)>>) -> nat
    decreases direct.len(),
{
    if direct.len() == 0 {
        0
    } else {
        overfull(direct.drop_last()) + if direct.last()@.len() > NNZ {
            1nat
        } else {
            0nat
        }
    }
}

/// After writing the records of some positions to a file and reading it back, all the records replay
/// the features of their positions, but for those that had no room for all of them.
pub proof fn lemma_roundtrip(
    boards: Seq<ChessBoard>,
    direct: Seq<Vec<(usize, usize)>>,
    records: Seq<AresPremapped>,
    back: Seq<AresPremapped>,
)
    requires
        direct.len() == boards.len(),
        records.len() == boards.len(),
        forall|i: int| 0 <= i < boards.len() ==> (#[trigger] direct[i])@ == board_pairs(boards[i]),
        forall|i: int|
            0 <= i < boards.len() ==> premapped::is_record_of(#[trigger] records[i], boards[i]),
        premapped::file_bytes(back) == premapped::file_bytes(records),
    ensures
        mismatches(direct, back) == overfull(direct),
    decreases boards.len(),
{
    premapped::lemma_file_determines_records(back, records);
    if boards.len() > 0 {
        let n = boards.len() - 1;
        lemma_roundtrip(
            boards.drop_last(),
            direct.drop_last(),
            records.drop_last(),
            records.drop_last(),
        );
        assert(direct.last() == direct[n] && records.last() == records[n]);
        premapped::lemma_record_replays(boards[n], records[n], records[n]);
        let pairs = direct[n]@;
        if pairs.len() > NNZ {
            broadcast use group_to_multiset_ensures;

            assert(pairs.to_multiset().len() != pairs.take(NNZ as int).to_multiset().len());
        }
    }
}

} // verus!
