//! Records with the features of a training position computed beforehand.
use bulletformat::ChessBoard;
use vstd::arithmetic::div_mod;
use vstd::prelude::*;
use vstd::slice::slice_subrange;

use crate::bits;
use crate::features;
use crate::features::{Lookup, NUM_INPUTS, NUM_INPUTS_TEXT};
use crate::inputs;
use crate::inputs::{AresChessBoard, AresOutputBuckets, AresThreats, GameResult, OUTPUT_BUCKETS_LAYOUT};
use crate::packed;
use crate::types::Color;

verus! {

/// How many pairs of features a record has room for.
pub const NNZ: usize = 160;

/// How many bytes a record takes in a file.
pub const RECORD_SIZE: usize = 1296;

/// The features, the score, the result and the bucket of a training position.
#[derive(Copy, Clone)]
pub struct AresPremapped {
    /// The features for the side to move.
    pub stm: [u32; 160],
    /// The features for the other side.
    pub ntm: [u32; 160],
    /// How many pairs of features there are.
    pub n: u16,
    /// The score, as the side to move sees it.
    pub score: i16,
    /// The result, as the side to move sees it: 0 for a loss, 1 for a draw, 2 for a win.
    pub result: u8,
    /// The bucket of the output.
    pub bucket: u8,
    /// Unused.
    pub _pad: [u8; 10],
}

impl Default for AresPremapped {
    fn default() -> (r: Self)
        ensures
            r.stm@ == Seq::new(160, |i: int| 0u32),
            r.ntm@ == Seq::new(160, |i: int| 0u32),
            r.n == 0,
            r.score == 0,
            r.result == 1,
            r.bucket == 0,
            r._pad@ == Seq::new(10, |i: int| 0u8),
    {
        AresPremapped {
            stm: [0;160],
            ntm: [0;160],
            n: 0,
            score: 0,
            result: 1,
            bucket: 0,
            _pad: [0;10],
        }
    }
}

impl AresPremapped {
    /// The pairs of features of a record.
    pub open spec fn pairs(self) -> Seq<(usize, usize)> {
        Seq::new(self.n as nat, |i: int| (self.stm[i] as usize, self.ntm[i] as usize))
    }

    /// The score, as the side to move sees it.
    pub fn score(&self) -> (r: i16)
        ensures
            r == self.score,
    {
        self.score
    }

    /// The result, as the side to move sees it.
    pub fn result(&self) -> (r: GameResult)
        requires
            self.result <= 2,
        ensures
            r.number() == self.result,
            r is Loss <==> self.result == 0,
            r is Draw <==> self.result == 1,
            r is Win <==> self.result == 2,
    {
        GameResult::from_index(self.result as usize)
    }
}

/// The features of a record.
#[derive(Copy, Clone, Debug, Default)]
pub struct AresThreatsPre;

impl AresThreatsPre {
    /// How many features there are.
    pub fn num_inputs(&self) -> (r: usize)
        ensures
            r == NUM_INPUTS,
    {
        NUM_INPUTS
    }

    /// How many features of a position there is room for: at least as many as in a record.
    pub fn max_active(&self) -> (r: usize)
        ensures
            r == 256,
            r >= NNZ,
    {
        256
    }

    /// The pairs of features of a record.
    pub fn map_features(&self, pos: &AresPremapped) -> (r: Vec<(usize, usize)>)
        requires
            pos.n <= NNZ,
        ensures
            r@ == pos.pairs(),
            r@.len() == pos.n,
            forall|i: int|
                0 <= i < pos.n ==> (#[trigger] r@[i]).0 == pos.stm[i] && r@[i].1 == pos.ntm[i],
    {
        let n: usize = pos.n as usize;
        let mut out: Vec<(usize, usize)> = Vec::new();
        let mut i: usize = 0;
        while i < n
            invariant
                i <= n,
                n == pos.n,
                n <= 160,
                out@ == pos.pairs().take(i as int),
            decreases n - i,
        {
            out.push((pos.stm[i] as usize, pos.ntm[i] as usize));
            assert(out@ =~= pos.pairs().take(i + 1));
            i = i + 1;
        }
        assert(out@ =~= pos.pairs());
        out
    }

    /// A short name of the inputs: their number.
    pub fn shorthand(&self) -> (r: String)
        ensures
            r@ == features::decimal(NUM_INPUTS as nat),
    {
        proof {
            features::lemma_num_inputs_text();
        }
        NUM_INPUTS_TEXT.to_owned()
    }

    /// A description of the inputs.
    pub fn description(&self) -> (r: String)
        ensures
            r@ == "Ares combined PST + threat features, premapped (precomputed index pairs)"@,
    {
        "Ares combined PST + threat features, premapped (precomputed index pairs)".to_owned()
    }
}

/// The buckets of the output, as the records hold them.
#[derive(Copy, Clone, Default)]
pub struct AresPreOutputBuckets;

impl AresPreOutputBuckets {
    /// How many buckets there are.
    pub const BUCKETS: usize = 8;

    /// The bucket of a record.
    pub fn bucket(&self, pos: &AresPremapped) -> (r: u8)
        ensures
            r == pos.bucket,
    {
        pos.bucket
    }
}

/// Enters pairs of features in a record, as many as there is room for, and tells whether some were
/// left out.
pub fn store_pairs(rec: &mut AresPremapped, pairs: &Vec<(usize, usize)>) -> (clamped: bool)
    requires
        forall|i: int|
            0 <= i < pairs@.len() ==> (#[trigger] pairs@[i]).0 < NUM_INPUTS && pairs@[i].1
                < NUM_INPUTS,
    ensures
        clamped == (pairs@.len() > NNZ),
        final(rec).n == if clamped {
            NNZ as int
        } else {
            pairs@.len() as int
        },
        final(rec).pairs() == pairs@.take(final(rec).n as int),
        forall|i: int| 0 <= i < final(rec).n ==> #[trigger] final(rec).stm[i] == pairs@[i].0,
        forall|i: int| 0 <= i < final(rec).n ==> #[trigger] final(rec).ntm[i] == pairs@[i].1,
        forall|i: int|
            final(rec).n <= i < 160 ==> #[trigger] final(rec).stm[i] == old(rec).stm[i],
        forall|i: int|
            final(rec).n <= i < 160 ==> #[trigger] final(rec).ntm[i] == old(rec).ntm[i],
        final(rec).score == old(rec).score,
        final(rec).result == old(rec).result,
        final(rec).bucket == old(rec).bucket,
        final(rec)._pad == old(rec)._pad,
{
    let mut clamped: bool = false;
    let mut n: usize = pairs.len();
    if n > NNZ {
        clamped = true;
        n = NNZ;
    }
    let mut i: usize = 0;
    while i < n
        invariant
            i <= n,
            n <= 160,
            n <= pairs@.len(),
            forall|i: int|
                0 <= i < pairs@.len() ==> (#[trigger] pairs@[i]).0 < NUM_INPUTS && pairs@[i].1
                    < NUM_INPUTS,
            forall|j: int| 0 <= j < i ==> #[trigger] rec.stm[j] == pairs@[j].0,
            forall|j: int| 0 <= j < i ==> #[trigger] rec.ntm[j] == pairs@[j].1,
            forall|j: int| i <= j < 160 ==> #[trigger] rec.stm[j] == old(rec).stm[j],
            forall|j: int| i <= j < 160 ==> #[trigger] rec.ntm[j] == old(rec).ntm[j],
            rec.score == old(rec).score,
            rec.result == old(rec).result,
            rec.bucket == old(rec).bucket,
            rec._pad == old(rec)._pad,
        decreases n - i,
    {
        let (s, t): (usize, usize) = pairs[i];
        assert(pairs@[i as int].0 < NUM_INPUTS);
        rec.stm[i] = s as u32;
        rec.ntm[i] = t as u32;
        i = i + 1;
    }
    rec.n = n as u16;
    assert(rec.pairs() =~= pairs@.take(n as int));
    clamped
}

/// Whether `rec` is the record of a packed position, taken as it is packed, as far as there is room
/// for its features.
pub open spec fn is_record_of(rec: AresPremapped, board: ChessBoard) -> bool {
    let pos = AresChessBoard { board, stm_is_black: false };
    let pairs = inputs::feature_pairs(pos.position(), Color::White);
    &&& rec.n == if pairs.len() > NNZ {
        NNZ as int
    } else {
        pairs.len() as int
    }
    &&& rec.pairs() == pairs.take(rec.n as int)
    &&& forall|i: int| rec.n <= i < 160 ==> #[trigger] rec.stm[i] == 0
    &&& forall|i: int| rec.n <= i < 160 ==> #[trigger] rec.ntm[i] == 0
    &&& rec.score == packed::board_score(board)
    &&& rec.result == packed::board_result(board)
    &&& rec.bucket == OUTPUT_BUCKETS_LAYOUT[bits::count(packed::board_occ(board)) as int]
    &&& rec._pad@ == Seq::new(10, |i: int| 0u8)
}

/// What a record of a position holds: the features of the position as it is packed, for the side to
/// move and for the other side, each list in ascending order and as far as there is room, zeros
/// behind them, and the score, the result and the bucket of the position.
pub proof fn lemma_record_fields(rec: AresPremapped, board: ChessBoard)
    requires
        is_record_of(rec, board),
    ensures
        rec.score == packed::board_score(board),
        rec.result == packed::board_result(board),
        rec.bucket == OUTPUT_BUCKETS_LAYOUT[bits::count(packed::board_occ(board)) as int],
        ({
            let pos = AresChessBoard { board, stm_is_black: false };
            let stm = inputs::sorted_features(pos.position(), Color::White);
            let ntm = inputs::sorted_features(pos.position(), Color::Black);
            &&& stm.len() <= 160 ==> rec.n == stm.len()
            &&& stm.len() > 160 ==> rec.n == 160
            &&& forall|i: int|
                0 <= i < 160 ==> #[trigger] rec.stm[i] as usize == if i < stm.len() {
                    stm[i]
                } else {
                    0
                }
            &&& forall|i: int|
                0 <= i < 160 ==> #[trigger] rec.ntm[i] as usize == if i < stm.len() {
                    ntm[i]
                } else {
                    0
                }
        }),
        forall|i: int| 0 <= i < 10 ==> #[trigger] rec._pad[i] == 0,
{
    let pos = AresChessBoard { board, stm_is_black: false };
    let pairs = inputs::feature_pairs(pos.position(), Color::White);
    let n = rec.n as int;
    let stm = inputs::sorted_features(pos.position(), Color::White);
    let ntm = inputs::sorted_features(pos.position(), Color::Black);
    assert(Color::White.opposite() == Color::Black);
    assert forall|i: int| 0 <= i < 160 implies #[trigger] rec.stm[i] as usize == if i < stm.len() {
        stm[i]
    } else {
        0
    } by {
        if i < n {
            assert(rec.pairs()[i] == pairs.take(n)[i]);
        }
    }
    assert forall|i: int| 0 <= i < 160 implies #[trigger] rec.ntm[i] as usize == if i < stm.len() {
        ntm[i]
    } else {
        0
    } by {
        if i < n {
            assert(rec.pairs()[i] == pairs.take(n)[i]);
        }
    }
    assert forall|i: int| 0 <= i < 10 implies #[trigger] rec._pad[i] == 0 by {
        assert(rec._pad@[i] == 0);
    }
}

/// The record of a packed position, and whether it has more features than the record has room for.
pub fn premap(lookup: &Lookup, board: &ChessBoard) -> (r: (AresPremapped, bool))
    requires
        inputs::is_readable(*board),
        packed::board_result(*board) <= 2,
    ensures
        is_record_of(r.0, *board),
        r.1 == (inputs::feature_pairs(
            (AresChessBoard { board: *board, stm_is_black: false }).position(),
            Color::White,
        ).len() > NNZ),
        r.0.score == packed::board_score(*board),
        r.0.result == packed::board_result(*board),
        r.0.bucket == OUTPUT_BUCKETS_LAYOUT[bits::count(packed::board_occ(*board)) as int],
        ({
            let pos = AresChessBoard { board: *board, stm_is_black: false };
            let stm = inputs::sorted_features(pos.position(), Color::White);
            let ntm = inputs::sorted_features(pos.position(), Color::Black);
            &&& stm.len() <= 160 ==> !r.1 && r.0.n == stm.len()
            &&& stm.len() > 160 ==> r.1 && r.0.n == 160
            &&& forall|i: int|
                0 <= i < 160 ==> #[trigger] r.0.stm[i] == if i < stm.len() {
                    stm[i] as int
                } else {
                    0
                }
            &&& forall|i: int|
                0 <= i < 160 ==> #[trigger] r.0.ntm[i] == if i < stm.len() {
                    ntm[i] as int
                } else {
                    0
                }
        }),
        forall|i: int| 0 <= i < 10 ==> #[trigger] r.0._pad[i] == 0,
{
    let acb: AresChessBoard = AresChessBoard { board: *board, stm_is_black: false };
    let pairs: Vec<(usize, usize)> = AresThreats::map_pairs(lookup, &acb);
    proof {
        inputs::lemma_pairs_range(acb);
    }
    let mut rec: AresPremapped = AresPremapped::default();
    let clamped: bool = store_pairs(&mut rec, &pairs);
    rec.score = packed::score(board);
    rec.result = acb.result().index();
    rec.bucket = AresOutputBuckets.bucket(&acb);
    proof {
        let n = rec.n as int;
        assert forall|i: int| 0 <= i < n implies rec.stm[i] == pairs@[i].0 && rec.ntm[i]
            == pairs@[i].1 by {
            assert(rec.pairs()[i] == pairs@.take(n)[i]);
        }
        assert forall|i: int| 0 <= i < 10 implies #[trigger] rec._pad[i] == 0 by {
            assert(rec._pad@[i] == 0);
        }
    }
    (rec, clamped)
}

/// The record of a packed position, and whether it has more features than the record has room for,
/// or `None` if the position or its result cannot be read.
pub fn checked_premap(lookup: &Lookup, board: &ChessBoard) -> (r: Option<(AresPremapped, bool)>)
    ensures
        r is Some <==> inputs::is_readable(*board) && packed::board_result(*board) <= 2,
        r matches Some(found) ==> found.0.score == packed::board_score(*board) && found.0.result
            == packed::board_result(*board) && found.0.bucket
            == OUTPUT_BUCKETS_LAYOUT[bits::count(packed::board_occ(*board)) as int],
        r matches Some(found) ==> is_record_of(found.0, *board) && found.1 == (
        inputs::feature_pairs(
            (AresChessBoard { board: *board, stm_is_black: false }).position(),
            Color::White,
        ).len() > NNZ),
{
    let acb: AresChessBoard = AresChessBoard { board: *board, stm_is_black: false };
    if acb.is_valid() && acb.has_result() {
        Some(premap(lookup, board))
    } else {
        None
    }
}

/// The `k`th byte of a number, the lowest one first.
pub open spec fn byte_of(x: int, k: int) -> u8 {
    (if k == 0 {
        x % 0x100
    } else if k == 1 {
        x / 0x100 % 0x100
    } else if k == 2 {
        x / 0x1_0000 % 0x100
    } else {
        x / 0x100_0000 % 0x100
    }) as u8
}

impl AresPremapped {
    /// The bytes of a record in a file: the two lists of features, each number in four bytes, then
    /// the number of pairs and the score in two bytes each, the result, the bucket, and ten unused
    /// bytes. The lowest byte of a number comes first; negative scores are stored modulo 65536.
    pub open spec fn bytes(self) -> Seq<u8> {
        Seq::new(
            RECORD_SIZE as nat,
            |i: int|
                if i < 640 {
                    byte_of(self.stm[i / 4] as int, i % 4)
                } else if i < 1280 {
                    byte_of(self.ntm[(i - 640) / 4] as int, i % 4)
                } else if i < 1282 {
                    byte_of(self.n as int, i - 1280)
                } else if i < 1284 {
                    byte_of(self.score as int % 0x1_0000, i - 1282)
                } else if i == 1284 {
                    self.result
                } else if i == 1285 {
                    self.bucket
                } else {
                    self._pad[i - 1286]
                },
        )
    }

    /// The bytes of the record in a file.
    pub fn to_bytes(&self) -> (r: Vec<u8>)
        ensures
            r@ == self.bytes(),
            r@.len() == 1296,
            forall|j: int|
                0 <= j < 160 ==> #[trigger] self.stm[j] == r@[4 * j] + 0x100 * r@[4 * j + 1]
                    + 0x1_0000 * r@[4 * j + 2] + 0x100_0000 * r@[4 * j + 3],
            forall|j: int|
                0 <= j < 160 ==> #[trigger] self.ntm[j] == r@[640 + 4 * j] + 0x100 * r@[641 + 4 * j]
                    + 0x1_0000 * r@[642 + 4 * j] + 0x100_0000 * r@[643 + 4 * j],
            self.n == r@[1280] + 0x100 * r@[1281],
            self.score == r@[1282] + 0x100 * r@[1283] - (if r@[1283] >= 0x80 {
                0x1_0000int
            } else {
                0
            }),
            self.result == r@[1284],
            self.bucket == r@[1285],
            forall|j: int| 0 <= j < 10 ==> #[trigger] self._pad[j] == r@[1286 + j],
    {
        let mut out: Vec<u8> = Vec::new();
        let mut i: usize = 0;
        while i < NNZ
            invariant
                i <= 160,
                out@.len() == 4 * i,
                out@ == self.bytes().take(4 * i),
            decreases 160 - i,
        {
            push_word(&mut out, self.stm[i]);
            assert(out@ =~= self.bytes().take(4 * i + 4));
            i = i + 1;
        }
        let mut i: usize = 0;
        while i < NNZ
            invariant
                i <= 160,
                out@.len() == 640 + 4 * i,
                out@ == self.bytes().take(640 + 4 * i),
            decreases 160 - i,
        {
            push_word(&mut out, self.ntm[i]);
            assert(out@ =~= self.bytes().take(640 + 4 * i + 4));
            i = i + 1;
        }
        out.push((self.n % 256) as u8);
        out.push((self.n / 256) as u8);
        let score: u16 = score_word(self.score);
        out.push((score % 256) as u8);
        out.push((score / 256) as u8);
        out.push(self.result);
        out.push(self.bucket);
        assert(out@ =~= self.bytes().take(1286));
        let mut i: usize = 0;
        while i < 10
            invariant
                i <= 10,
                out@.len() == 1286 + i,
                out@ == self.bytes().take(1286 + i),
            decreases 10 - i,
        {
            out.push(self._pad[i]);
            assert(out@ =~= self.bytes().take(1286 + i + 1));
            i = i + 1;
        }
        assert(out@ =~= self.bytes());
        proof {
            lemma_layout(*self, out@);
        }
        out
    }

    /// The record with the given bytes, or `None` if their number is not that of a record.
    pub fn from_bytes(bytes: &[u8]) -> (r: Option<AresPremapped>)
        ensures
            r is Some <==> bytes@.len() == RECORD_SIZE,
            r matches Some(rec) ==> rec.bytes() == bytes@,
            r matches Some(rec) ==> {
                &&& forall|j: int|
                    0 <= j < 160 ==> #[trigger] rec.stm[j] == bytes@[4 * j] + 0x100 * bytes@[4 * j
                        + 1] + 0x1_0000 * bytes@[4 * j + 2] + 0x100_0000 * bytes@[4 * j + 3]
                &&& forall|j: int|
                    0 <= j < 160 ==> #[trigger] rec.ntm[j] == bytes@[640 + 4 * j] + 0x100
                        * bytes@[641 + 4 * j] + 0x1_0000 * bytes@[642 + 4 * j] + 0x100_0000
                        * bytes@[643 + 4 * j]
                &&& rec.n == bytes@[1280] + 0x100 * bytes@[1281]
                &&& rec.score == bytes@[1282] + 0x100 * bytes@[1283] - (if bytes@[1283] >= 0x80 {
                    0x1_0000int
                } else {
                    0
                })
                &&& rec.result == bytes@[1284]
                &&& rec.bucket == bytes@[1285]
                &&& forall|j: int| 0 <= j < 10 ==> #[trigger] rec._pad[j] == bytes@[1286 + j]
            },
    {
        if bytes.len() != RECORD_SIZE {
            return None;
        }
        let mut rec: AresPremapped = AresPremapped::default();
        let mut i: usize = 0;
        while i < NNZ
            invariant
                i <= 160,
                bytes@.len() == 1296,
                forall|j: int| 0 <= j < i ==> #[trigger] rec.stm[j] == word_at(bytes@, 4 * j),
                forall|j: int| 0 <= j < i ==> #[trigger] rec.ntm[j] == word_at(bytes@, 640 + 4 * j),
            decreases 160 - i,
        {
            rec.stm[i] = read_word(bytes, 4 * i);
            rec.ntm[i] = read_word(bytes, 640 + 4 * i);
            i = i + 1;
        }
        rec.n = bytes[1280] as u16 + 256 * bytes[1281] as u16;
        rec.score = word_score(bytes[1282] as u16 + 256 * bytes[1283] as u16);
        rec.result = bytes[1284];
        rec.bucket = bytes[1285];
        let mut i: usize = 0;
        while i < 10
            invariant
                i <= 10,
                bytes@.len() == 1296,
                forall|j: int| 0 <= j < 160 ==> #[trigger] rec.stm[j] == word_at(bytes@, 4 * j),
                forall|j: int|
                    0 <= j < 160 ==> #[trigger] rec.ntm[j] == word_at(bytes@, 640 + 4 * j),
                rec.n == bytes@[1280] + 256 * bytes@[1281],
                rec.score as int % 0x1_0000 == bytes@[1282] + 256 * bytes@[1283],
                rec.result == bytes@[1284],
                rec.bucket == bytes@[1285],
                forall|j: int| 0 <= j < i ==> #[trigger] rec._pad[j] == bytes@[1286 + j],
            decreases 10 - i,
        {
            rec._pad[i] = bytes[1286 + i];
            i = i + 1;
        }
        proof {
            assert forall|i: int| 0 <= i < 1296 implies #[trigger] rec.bytes()[i] == bytes@[i] by {
                if i < 640 {
                    lemma_word_bytes(bytes@, 4 * (i / 4), i % 4);
                    assert(rec.stm[i / 4] == word_at(bytes@, 4 * (i / 4)));
                } else if i < 1280 {
                    let j = (i - 640) / 4;
                    lemma_word_bytes(bytes@, 640 + 4 * j, i % 4);
                    assert(rec.ntm[j] == word_at(bytes@, 640 + 4 * j));
                } else if i >= 1286 {
                    assert(rec._pad[i - 1286] == bytes@[1286 + (i - 1286)]);
                }
            }
            assert(rec.bytes() =~= bytes@);
            lemma_layout(rec, bytes@);
        }
        Some(rec)
    }
}

/// The number in the four bytes from `i` on, the lowest one first.
spec fn word_at(bytes: Seq<u8>, i: int) -> int {
    bytes[i] + 0x100 * bytes[i + 1] + 0x1_0000 * bytes[i + 2] + 0x100_0000 * bytes[i + 3]
}

proof fn lemma_word_bytes(bytes: Seq<u8>, i: int, k: int)
    requires
        0 <= k < 4,
    ensures
        byte_of(word_at(bytes, i), k) == bytes[i + k],
{
    lemma_digits(bytes[i], bytes[i + 1], bytes[i + 2], bytes[i + 3]);
}

/// The bytes of a number are the digits that it was put together from.
proof fn lemma_digits(a: u8, b: u8, c: u8, d: u8)
    ensures
        ({
            let x = a + 0x100 * b + 0x1_0000 * c + 0x100_0000 * d;
            &&& byte_of(x, 0) == a
            &&& byte_of(x, 1) == b
            &&& byte_of(x, 2) == c
            &&& byte_of(x, 3) == d
        }),
{
    let x = a + 0x100 * b + 0x1_0000 * c + 0x100_0000 * d;
    let y = b + 0x100 * c + 0x1_0000 * d;
    let z = c + 0x100 * d;
    div_mod::lemma_fundamental_div_mod_converse(x, 0x100, y, a as int);
    div_mod::lemma_fundamental_div_mod_converse(x, 0x1_0000, z, a + 0x100 * b);
    div_mod::lemma_fundamental_div_mod_converse(
        x,
        0x100_0000,
        d as int,
        a + 0x100 * b + 0x1_0000 * c,
    );
    div_mod::lemma_fundamental_div_mod_converse(y, 0x100, z, b as int);
    div_mod::lemma_fundamental_div_mod_converse(z, 0x100, d as int, c as int);
}

/// Appends the four bytes of a number, the lowest one first.
fn push_word(out: &mut Vec<u8>, x: u32)
    ensures
        final(out)@ == old(out)@.push(byte_of(x as int, 0)).push(byte_of(x as int, 1)).push(
            byte_of(x as int, 2),
        ).push(byte_of(x as int, 3)),
{
    out.push((x % 0x100) as u8);
    out.push((x / 0x100 % 0x100) as u8);
    out.push((x / 0x1_0000 % 0x100) as u8);
    out.push((x / 0x100_0000 % 0x100) as u8);
}

/// Reads the number in the four bytes from `i` on.
fn read_word(bytes: &[u8], i: usize) -> (r: u32)
    requires
        i + 4 <= bytes@.len(),
    ensures
        r == word_at(bytes@, i as int),
{
    bytes[i] as u32 + 0x100 * bytes[i + 1] as u32 + 0x1_0000 * bytes[i + 2] as u32 + 0x100_0000
        * bytes[i + 3] as u32
}

/// A score modulo 65536.
fn score_word(score: i16) -> (r: u16)
    ensures
        r == score as int % 0x1_0000,
{
    if score < 0 {
        (score as i32 + 0x1_0000) as u16
    } else {
        score as u16
    }
}

/// The score that is stored as the given number.
fn word_score(word: u16) -> (r: i16)
    ensures
        r as int % 0x1_0000 == word,
{
    if word >= 0x8000 {
        (word as i32 - 0x1_0000) as i16
    } else {
        word as i16
    }
}

/// Where the fields of a record stand among its bytes: the numbers of the side to move from byte 0
/// on, those of the other side from byte 640 on, four bytes each, the lowest one first; the number
/// of pairs at byte 1280, the score in two's complement at byte 1282, the result at byte 1284, the
/// bucket at byte 1285, and the unused bytes behind it.
pub proof fn lemma_layout(rec: AresPremapped, bytes: Seq<u8>)
    requires
        bytes == rec.bytes(),
    ensures
        bytes.len() == 1296,
        forall|j: int|
            0 <= j < 160 ==> #[trigger] rec.stm[j] == bytes[4 * j] + 0x100 * bytes[4 * j + 1]
                + 0x1_0000 * bytes[4 * j + 2] + 0x100_0000 * bytes[4 * j + 3],
        forall|j: int|
            0 <= j < 160 ==> #[trigger] rec.ntm[j] == bytes[640 + 4 * j] + 0x100 * bytes[641 + 4 * j]
                + 0x1_0000 * bytes[642 + 4 * j] + 0x100_0000 * bytes[643 + 4 * j],
        rec.n == bytes[1280] + 0x100 * bytes[1281],
        rec.score == bytes[1282] + 0x100 * bytes[1283] - (if bytes[1283] >= 0x80 {
            0x1_0000int
        } else {
            0
        }),
        rec.result == bytes[1284],
        rec.bucket == bytes[1285],
        forall|j: int| 0 <= j < 10 ==> #[trigger] rec._pad[j] == bytes[1286 + j],
{
    assert forall|j: int| 0 <= j < 160 implies #[trigger] rec.stm[j] == bytes[4 * j] + 0x100
        * bytes[4 * j + 1] + 0x1_0000 * bytes[4 * j + 2] + 0x100_0000 * bytes[4 * j + 3] by {
        lemma_word(rec.stm[j]);
    }
    assert forall|j: int| 0 <= j < 160 implies #[trigger] rec.ntm[j] == bytes[640 + 4 * j] + 0x100
        * bytes[641 + 4 * j] + 0x1_0000 * bytes[642 + 4 * j] + 0x100_0000 * bytes[643 + 4 * j] by {
        lemma_word(rec.ntm[j]);
    }
    let score = rec.score as int % 0x1_0000;
    assert(score == rec.score + (if rec.score < 0 {
        0x1_0000int
    } else {
        0
    }));
}

/// Different records have different bytes, so that a record read back is the record that was
/// written.
pub proof fn lemma_bytes_determine_record(a: AresPremapped, b: AresPremapped)
    requires
        a.bytes() == b.bytes(),
    ensures
        a == b,
{
    let (x, y) = (a.bytes(), b.bytes());
    assert forall|j: int| 0 <= j < 160 implies a.stm[j] == b.stm[j] by {
        assert(x[4 * j] == y[4 * j] && x[4 * j + 1] == y[4 * j + 1]);
        assert(x[4 * j + 2] == y[4 * j + 2] && x[4 * j + 3] == y[4 * j + 3]);
        lemma_same_word(a.stm[j], b.stm[j]);
    }
    assert forall|j: int| 0 <= j < 160 implies a.ntm[j] == b.ntm[j] by {
        let i = 640 + 4 * j;
        assert(x[i] == y[i] && x[i + 1] == y[i + 1] && x[i + 2] == y[i + 2] && x[i + 3] == y[i + 3]);
        lemma_same_word(a.ntm[j], b.ntm[j]);
    }
    assert(x[1280] == y[1280] && x[1281] == y[1281] && x[1282] == y[1282] && x[1283] == y[1283]);
    assert(x[1284] == y[1284] && x[1285] == y[1285]);
    assert forall|j: int| 0 <= j < 10 implies a._pad[j] == b._pad[j] by {
        let i = 1286 + j;
        assert(x[i] == a._pad[j] && y[i] == b._pad[j]);
    }
    assert(a.stm =~= b.stm);
    assert(a.ntm =~= b.ntm);
    assert(a._pad =~= b._pad);
}

/// A record that was written and read back replays the features of its position: all of them if
/// there is room for them, and otherwise as many as there is room for.
pub proof fn lemma_record_replays(board: ChessBoard, rec: AresPremapped, back: AresPremapped)
    requires
        is_record_of(rec, board),
        back.bytes() == rec.bytes(),
    ensures
        ({
            let pos = AresChessBoard { board, stm_is_black: false };
            let pairs = inputs::feature_pairs(pos.position(), pos.mover());
            &&& pairs.len() <= NNZ ==> back.pairs() == pairs
            &&& pairs.len() > NNZ ==> back.pairs() == pairs.take(NNZ as int)
        }),
{
    lemma_bytes_determine_record(rec, back);
    let pos = AresChessBoard { board, stm_is_black: false };
    let pairs = inputs::feature_pairs(pos.position(), pos.mover());
    if pairs.len() <= NNZ {
        assert(pairs.take(rec.n as int) =~= pairs);
    }
}

/// The bytes of a file of records.
pub open spec fn file_bytes(records: Seq<AresPremapped>) -> Seq<u8>
    decreases records.len(),
{
    if records.len() == 0 {
        Seq::empty()
    } else {
        file_bytes(records.drop_last()) + records.last().bytes()
    }
}

proof fn lemma_file_size(records: Seq<AresPremapped>)
    ensures
        file_bytes(records).len() == RECORD_SIZE * records.len(),
    decreases records.len(),
{
    if records.len() > 0 {
        lemma_file_size(records.drop_last());
    }
}

/// Different records make different files, so that a file read back holds the records that were
/// written.
pub proof fn lemma_file_determines_records(a: Seq<AresPremapped>, b: Seq<AresPremapped>)
    requires
        file_bytes(a) == file_bytes(b),
    ensures
        a == b,
    decreases a.len(),
{
    lemma_file_size(a);
    lemma_file_size(b);
    assert(a.len() == b.len());
    if a.len() > 0 {
        let (x, y) = (file_bytes(a), file_bytes(b));
        let (c, d) = (a.drop_last(), b.drop_last());
        lemma_file_size(c);
        lemma_file_size(d);
        let n = file_bytes(c).len() as int;
        assert(file_bytes(c) =~= x.take(n));
        assert(file_bytes(d) =~= y.take(n));
        lemma_file_determines_records(c, d);
        assert(a.last().bytes() =~= x.skip(n));
        assert(b.last().bytes() =~= y.skip(n));
        lemma_bytes_determine_record(a.last(), b.last());
        assert(a =~= c.push(a.last()));
        assert(b =~= d.push(b.last()));
    }
}

/// The bytes of a file of records.
pub fn write_records(records: &Vec<AresPremapped>) -> (r: Vec<u8>)
    ensures
        r@ == file_bytes(records@),
        r@.len() == 1296 * records@.len(),
        forall|i: int|
            0 <= i < records@.len() ==> r@.subrange(1296 * i, 1296 * i + 1296) == (
            #[trigger] records@[i]).bytes(),
{
    let mut out: Vec<u8> = Vec::new();
    let mut i: usize = 0;
    assert(records@.take(0) =~= Seq::empty());
    while i < records.len()
        invariant
            i <= records@.len(),
            out@ == file_bytes(records@.take(i as int)),
        decreases records@.len() - i,
    {
        let mut bytes: Vec<u8> = records[i].to_bytes();
        assert(records@.take(i + 1).drop_last() =~= records@.take(i as int));
        out.append(&mut bytes);
        i = i + 1;
    }
    assert(records@.take(i as int) =~= records@);
    proof {
        lemma_file_parts(records@);
    }
    out
}

/// Each record of a file has its own part of it, in order.
pub proof fn lemma_file_parts(records: Seq<AresPremapped>)
    ensures
        file_bytes(records).len() == 1296 * records.len(),
        forall|i: int|
            0 <= i < records.len() ==> file_bytes(records).subrange(1296 * i, 1296 * i + 1296) == (
            #[trigger] records[i]).bytes(),
    decreases records.len(),
{
    if records.len() > 0 {
        let fewer = records.drop_last();
        lemma_file_parts(fewer);
        assert forall|i: int| 0 <= i < records.len() implies file_bytes(records).subrange(
            1296 * i,
            1296 * i + 1296,
        ) == (#[trigger] records[i]).bytes() by {
            let part = file_bytes(records).subrange(1296 * i, 1296 * i + 1296);
            if i < fewer.len() {
                assert(fewer[i] == records[i]);
                assert(part =~= file_bytes(fewer).subrange(1296 * i, 1296 * i + 1296));
            } else {
                assert(part =~= records.last().bytes());
            }
        }
    }
}

/// Reads a file of records, or returns `None` if it ends within a record.
pub fn read_records(bytes: &[u8]) -> (r: Option<Vec<AresPremapped>>)
    ensures
        r is Some <==> bytes@.len() % (RECORD_SIZE as nat) == 0,
        r matches Some(records) ==> file_bytes(records@) == bytes@,
        r matches Some(records) ==> bytes@.len() == 1296 * records@.len() && forall|i: int|
            0 <= i < records@.len() ==> bytes@.subrange(1296 * i, 1296 * i + 1296) == (
            #[trigger] records@[i]).bytes(),
{
    let n: usize = bytes.len();
    if n % RECORD_SIZE != 0 {
        return None;
    }
    let mut out: Vec<AresPremapped> = Vec::new();
    let mut i: usize = 0;
    assert(bytes@.take(0) =~= Seq::empty());
    while i < n
        invariant
            i <= n,
            n == bytes@.len(),
            n % 1296 == 0,
            i % 1296 == 0,
            file_bytes(out@) == bytes@.take(i as int),
        decreases n - i,
    {
        let part: &[u8] = slice_subrange(bytes, i, i + RECORD_SIZE);
        if let Some(record) = AresPremapped::from_bytes(part) {
            let ghost before = out@;
            out.push(record);
            proof {
                assert(out@.drop_last() =~= before);
                assert(file_bytes(out@) =~= bytes@.take(i + 1296));
            }
        }
        i = i + RECORD_SIZE;
    }
    assert(bytes@.take(i as int) =~= bytes@);
    proof {
        lemma_file_parts(out@);
    }
    Some(out)
}

proof fn lemma_same_word(x: u32, y: u32)
    requires
        byte_of(x as int, 0) == byte_of(y as int, 0),
        byte_of(x as int, 1) == byte_of(y as int, 1),
        byte_of(x as int, 2) == byte_of(y as int, 2),
        byte_of(x as int, 3) == byte_of(y as int, 3),
    ensures
        x == y,
{
    lemma_word(x);
    lemma_word(y);
}

proof fn lemma_word(x: u32)
    ensures
        x == byte_of(x as int, 0) + 0x100 * byte_of(x as int, 1) + 0x1_0000 * byte_of(x as int, 2)
            + 0x100_0000 * byte_of(x as int, 3),
{
    let x = x as int;
    div_mod::lemma_fundamental_div_mod(x, 0x100);
    div_mod::lemma_fundamental_div_mod(x / 0x100, 0x100);
    div_mod::lemma_fundamental_div_mod(x / 0x1_0000, 0x100);
    div_mod::lemma_div_denominator(x, 0x100, 0x100);
    div_mod::lemma_div_denominator(x, 0x1_0000, 0x100);
    assert(0 <= x / 0x100_0000 < 0x100);
}

} // verus!
