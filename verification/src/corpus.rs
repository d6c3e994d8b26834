//! Lists of positions with their features, as text, and the comparison of features with them.
//!
//! Each position takes three lines: its FEN, then its features for White and for Black.
use bulletformat::ChessBoard;
use vstd::prelude::*;

use crate::board;
use crate::board::Position;
use crate::features;
use crate::features::Lookup;
use crate::fen;
use crate::inputs;
use crate::inputs::{AresChessBoard, AresThreats};
use crate::packed;
use crate::text;
use crate::text::CharClass;
use crate::types::Color;

verus! {

/// A position and its features for White and for Black.
pub struct Entry {
    pub fen: Vec<char>,
    pub pov0: Vec<usize>,
    pub pov1: Vec<usize>,
}

/// What an entry holds.
#[verifier::ext_equal]
pub struct EntryModel {
    pub fen: Seq<char>,
    pub pov0: Seq<usize>,
    pub pov1: Seq<usize>,
}

impl View for Entry {
    type V = EntryModel;

    open spec fn view(&self) -> EntryModel {
        EntryModel { fen: self.fen@, pov0: self.pov0@, pov1: self.pov1@ }
    }
}

/// What the entries of a list hold.
pub open spec fn entries(v: Seq<Entry>) -> Seq<EntryModel> {
    Seq::new(v.len(), |i: int| v[i]@)
}

/// The lines of a text. Each ends in a line feed, with or without a carriage return before it, but
/// for the last one, which may go without and is none if it is empty.
pub open spec fn lines(s: Seq<char>) -> Seq<Seq<char>> {
    let parts = text::parts(s, '\n');
    let whole = Seq::new((parts.len() - 1) as nat, |i: int| without_return(parts[i]));
    if parts.last().len() == 0 {
        whole
    } else {
        whole.push(parts.last())
    }
}

/// A line without the carriage return at its end, if there is one.
pub open spec fn without_return(s: Seq<char>) -> Seq<char> {
    if s.len() > 0 && s.last() == '\r' {
        s.drop_last()
    } else {
        s
    }
}

/// Splits a text into lines.
pub fn split_lines(s: &Vec<char>) -> (r: Vec<Vec<char>>)
    ensures
        text::texts(r@) == lines(s@),
{
    let parts: Vec<Vec<char>> = text::split(s, '\n');
    let ghost all = text::parts(s@, '\n');
    let mut out: Vec<Vec<char>> = Vec::new();
    let mut i: usize = 0;
    while i < parts.len() - 1
        invariant
            parts@.len() > 0,
            i <= parts@.len() - 1,
            all == text::texts(parts@),
            text::texts(out@) == Seq::new(i as nat, |j: int| without_return(all[j])),
        decreases parts@.len() - 1 - i,
    {
        let n: usize = parts[i].len();
        let ghost before = text::texts(out@);
        assert(all[i as int] == parts@[i as int]@);
        let hi: usize = if n > 0 && parts[i][n - 1] == '\r' {
            n - 1
        } else {
            n
        };
        let line: Vec<char> = text::part(&parts[i], 0, hi);
        assert(line@ =~= without_return(all[i as int]));
        out.push(line);
        i = i + 1;
        assert(text::texts(out@) =~= before.push(without_return(all[i - 1])));
        assert(text::texts(out@) =~= Seq::new(i as nat, |j: int| without_return(all[j])));
    }
    let n: usize = parts[i].len();
    assert(all.last() == parts@[i as int]@);
    if n > 0 {
        let ghost before = text::texts(out@);
        let line: Vec<char> = text::part(&parts[i], 0, n);
        assert(line@ =~= all.last());
        out.push(line);
        assert(text::texts(out@) =~= before.push(all.last()));
    }
    out
}

/// The FENs among the lines.
pub open spec fn fens_in(lines: Seq<Seq<char>>) -> Seq<Seq<char>>
    decreases lines.len(),
{
    if lines.len() == 0 {
        Seq::empty()
    } else {
        let fewer = fens_in(lines.drop_last());
        match text::stripped(lines.last(), "FEN "@) {
            Some(rest) => fewer.push(text::trimmed(rest)),
            None => fewer,
        }
    }
}

/// Reads the FENs of a list of positions.
pub fn parse_fens(s: &Vec<char>) -> (r: Vec<Vec<char>>)
    ensures
        text::texts(r@) == fens_in(lines(s@)),
{
    let all: Vec<Vec<char>> = split_lines(s);
    let ghost known = lines(s@);
    let mut out: Vec<Vec<char>> = Vec::new();
    let mut i: usize = 0;
    assert(known.take(0) =~= Seq::empty());
    assert(text::texts(out@) =~= Seq::empty());
    while i < all.len()
        invariant
            i <= all@.len(),
            known == text::texts(all@),
            text::texts(out@) == fens_in(known.take(i as int)),
        decreases all@.len() - i,
    {
        let ghost before = text::texts(out@);
        assert(known.take(i + 1).drop_last() =~= known.take(i as int));
        if let Some(rest) = text::strip_prefix(&all[i], "FEN ") {
            let fen: Vec<char> = text::trim(&rest);
            let ghost added = fen@;
            out.push(fen);
            assert(text::texts(out@) =~= before.push(added));
        }
        i = i + 1;
    }
    assert(known.take(i as int) =~= known);
    out
}

/// The numbers among the parts of a list; what is not a number is passed over.
pub open spec fn numbers_in(parts: Seq<Seq<char>>) -> Seq<usize>
    decreases parts.len(),
{
    if parts.len() == 0 {
        Seq::empty()
    } else {
        let fewer = numbers_in(parts.drop_last());
        match text::number(text::trimmed(parts.last())) {
            Some(v) => fewer.push(v),
            None => fewer,
        }
    }
}

/// The numbers of a list: separated by commas, in square brackets or without.
pub open spec fn list_numbers(s: Seq<char>) -> Seq<usize> {
    let inner = text::drop_back(
        text::drop_front(text::trimmed(s), CharClass::Is('[')),
        CharClass::Is(']'),
    );
    numbers_in(text::parts(inner, ','))
}

/// Reads the numbers of a list.
pub fn parse_list(s: &Vec<char>) -> (r: Vec<usize>)
    ensures
        r@ == list_numbers(s@),
{
    let inner: Vec<char> = text::skip_back(
        &text::skip_front(&text::trim(s), CharClass::Is('[')),
        CharClass::Is(']'),
    );
    let parts: Vec<Vec<char>> = text::split(&inner, ',');
    let ghost all = text::texts(parts@);
    let mut out: Vec<usize> = Vec::new();
    let mut i: usize = 0;
    assert(all.take(0) =~= Seq::empty());
    while i < parts.len()
        invariant
            i <= parts@.len(),
            all == text::texts(parts@),
            out@ == numbers_in(all.take(i as int)),
        decreases parts@.len() - i,
    {
        assert(all.take(i + 1).drop_last() =~= all.take(i as int));
        if let Some(v) = text::parse_number(&text::trim(&parts[i])) {
            out.push(v);
        }
        i = i + 1;
    }
    assert(all.take(i as int) =~= all);
    out
}

/// The text behind the first colon, or nothing if there is no colon.
pub open spec fn after_colon(s: Seq<char>) -> Seq<char> {
    let rest = text::drop_front(s, CharClass::IsNot(':'));
    if rest.len() == 0 {
        Seq::empty()
    } else {
        rest.skip(1)
    }
}

fn skip_colon(s: &Vec<char>) -> (r: Vec<char>)
    ensures
        r@ == after_colon(s@),
{
    let rest: Vec<char> = text::skip_front(s, CharClass::IsNot(':'));
    if rest.len() == 0 {
        rest
    } else {
        assert(rest@.skip(1) =~= rest@.subrange(1, rest@.len() as int));
        text::part(&rest, 1, rest.len())
    }
}

/// What is known after some of the lines: the last FEN, the features for White behind it, and the
/// entries so far.
#[verifier::ext_equal]
pub struct Reading {
    pub fen: Option<Seq<char>>,
    pub pov0: Option<Seq<usize>>,
    pub entries: Seq<EntryModel>,
}

/// What is known after one line more, or `None` if it has features for Black without a FEN and
/// features for White before them. Lines of other kinds are passed over.
pub open spec fn after_line(r: Reading, line: Seq<char>) -> Option<Reading> {
    if let Some(rest) = text::stripped(line, "FEN "@) {
        Some(Reading { fen: Some(text::trimmed(rest)), pov0: None, entries: r.entries })
    } else if let Some(rest) = text::stripped(line, "POV 0 count "@) {
        Some(
            Reading {
                fen: r.fen,
                pov0: Some(list_numbers(after_colon(rest))),
                entries: r.entries,
            },
        )
    } else if let Some(rest) = text::stripped(line, "POV 1 count "@) {
        if let (Some(fen), Some(pov0)) = (r.fen, r.pov0) {
            let entry = EntryModel { fen, pov0, pov1: list_numbers(after_colon(rest)) };
            Some(Reading { fen: r.fen, pov0: r.pov0, entries: r.entries.push(entry) })
        } else {
            None
        }
    } else {
        Some(r)
    }
}

/// What is known after the given lines.
pub open spec fn after_lines(lines: Seq<Seq<char>>) -> Option<Reading>
    decreases lines.len(),
{
    if lines.len() == 0 {
        Some(Reading { fen: None, pov0: None, entries: Seq::empty() })
    } else {
        match after_lines(lines.drop_last()) {
            Some(r) => after_line(r, lines.last()),
            None => None,
        }
    }
}

/// Once a line is out of order, no later line mends it.
proof fn lemma_out_of_order(lines: Seq<Seq<char>>, n: int)
    requires
        0 <= n <= lines.len(),
        after_lines(lines.take(n)) is None,
    ensures
        after_lines(lines) is None,
    decreases lines.len() - n,
{
    if n == lines.len() {
        assert(lines.take(n) =~= lines);
    } else {
        assert(lines.take(n + 1).drop_last() =~= lines.take(n));
        lemma_out_of_order(lines, n + 1);
    }
}

/// Copies a list of numbers.
fn copy_numbers(v: &Vec<usize>) -> (r: Vec<usize>)
    ensures
        r@ == v@,
{
    let mut out: Vec<usize> = Vec::new();
    let mut i: usize = 0;
    while i < v.len()
        invariant
            i <= v@.len(),
            out@ == v@.take(i as int),
        decreases v@.len() - i,
    {
        out.push(v[i]);
        assert(out@ =~= v@.take(i + 1));
        i = i + 1;
    }
    assert(out@ =~= v@);
    out
}

/// Reads a list of positions with their features, or returns `None` if some features for Black come
/// without a FEN and features for White before them.
pub fn parse_corpus(s: &Vec<char>) -> (r: Option<Vec<Entry>>)
    ensures
        r is Some <==> after_lines(lines(s@)) is Some,
        r matches Some(v) ==> entries(v@) == after_lines(lines(s@))->0.entries,
{
    let all: Vec<Vec<char>> = split_lines(s);
    let ghost known = lines(s@);
    let mut fen: Option<Vec<char>> = None;
    let mut pov0: Option<Vec<usize>> = None;
    let mut out: Vec<Entry> = Vec::new();
    let mut i: usize = 0;
    assert(known.take(0) =~= Seq::empty());
    assert(entries(out@) =~= Seq::empty());
    while i < all.len()
        invariant
            i <= all@.len(),
            known == lines(s@),
            known == text::texts(all@),
            after_lines(known.take(i as int)) == Some(
                Reading {
                    fen: optional_text(fen),
                    pov0: optional_numbers(pov0),
                    entries: entries(out@),
                },
            ),
        decreases all@.len() - i,
    {
        let line: &Vec<char> = &all[i];
        let ghost before = entries(out@);
        proof {
            assert(known.take(i + 1).drop_last() =~= known.take(i as int));
            assert(known.take(i + 1).last() == line@);
        }
        if let Some(rest) = text::strip_prefix(line, "FEN ") {
            fen = Some(text::trim(&rest));
            pov0 = None;
        } else if let Some(rest) = text::strip_prefix(line, "POV 0 count ") {
            pov0 = Some(parse_list(&skip_colon(&rest)));
        } else if let Some(rest) = text::strip_prefix(line, "POV 1 count ") {
            let pov1: Vec<usize> = parse_list(&skip_colon(&rest));
            match (&fen, &pov0) {
                (Some(f), Some(p)) => {
                    let copy: Vec<char> = text::part(f, 0, f.len());
                    assert(copy@ =~= f@);
                    let entry: Entry = Entry { fen: copy, pov0: copy_numbers(p), pov1 };
                    let ghost model = entry@;
                    out.push(entry);
                    assert(entries(out@) =~= before.push(model));
                },
                _ => {
                    proof {
                        lemma_out_of_order(known, i + 1);
                    }
                    return None;
                },
            }
        }
        i = i + 1;
    }
    assert(known.take(i as int) =~= known);
    Some(out)
}

spec fn optional_text(v: Option<Vec<char>>) -> Option<Seq<char>> {
    match v {
        Some(s) => Some(s@),
        None => None,
    }
}

spec fn optional_numbers(v: Option<Vec<usize>>) -> Option<Seq<usize>> {
    match v {
        Some(s) => Some(s@),
        None => None,
    }
}

/// Whether every number of the one list is in the other.
pub open spec fn includes(a: Seq<usize>, b: Seq<usize>) -> bool {
    forall|i: int| 0 <= i < b.len() ==> a.contains(#[trigger] b[i])
}

/// Whether two lists have the same members.
pub open spec fn same_members(a: Seq<usize>, b: Seq<usize>) -> bool {
    includes(a, b) && includes(b, a)
}

fn has_member(a: &Vec<usize>, v: usize) -> (r: bool)
    ensures
        r == a@.contains(v),
{
    let mut i: usize = 0;
    while i < a.len()
        invariant
            i <= a@.len(),
            forall|j: int| 0 <= j < i ==> a@[j] != v,
        decreases a@.len() - i,
    {
        if a[i] == v {
            return true;
        }
        i = i + 1;
    }
    false
}

fn check_includes(a: &Vec<usize>, b: &Vec<usize>) -> (r: bool)
    ensures
        r == includes(a@, b@),
{
    let mut i: usize = 0;
    while i < b.len()
        invariant
            i <= b@.len(),
            forall|j: int| 0 <= j < i ==> a@.contains(#[trigger] b@[j]),
        decreases b@.len() - i,
    {
        if !has_member(a, b[i]) {
            assert(!a@.contains(b@[i as int]));
            return false;
        }
        i = i + 1;
    }
    true
}

/// Lists have the same members exactly when every number is in both or in neither, that is, when
/// they are the same set.
pub proof fn lemma_same_members(a: Seq<usize>, b: Seq<usize>)
    ensures
        same_members(a, b) <==> forall|v: usize| a.contains(v) <==> #[trigger] b.contains(v),
        same_members(a, b) <==> a.to_set() == b.to_set(),
{
    if same_members(a, b) {
        assert forall|v: usize| a.contains(v) <==> #[trigger] b.contains(v) by {
            if a.contains(v) {
                let i = choose|i: int| 0 <= i < a.len() && a[i] == v;
                assert(b.contains(a[i]));
            }
            if b.contains(v) {
                let i = choose|i: int| 0 <= i < b.len() && b[i] == v;
                assert(a.contains(b[i]));
            }
        }
        assert(a.to_set() =~= b.to_set());
    }
    if a.to_set() == b.to_set() {
        assert forall|v: usize| a.contains(v) <==> #[trigger] b.contains(v) by {
            assert(a.to_set().contains(v) <==> b.to_set().contains(v));
        }
    }
    if forall|v: usize| a.contains(v) <==> #[trigger] b.contains(v) {
        assert forall|i: int| 0 <= i < b.len() implies a.contains(#[trigger] b[i]) by {
            assert(b.contains(b[i]));
        }
        assert forall|i: int| 0 <= i < a.len() implies b.contains(#[trigger] a[i]) by {
            assert(a.contains(a[i]));
        }
    }
}

/// Whether two lists have the same members.
pub fn have_same_members(a: &Vec<usize>, b: &Vec<usize>) -> (r: bool)
    ensures
        r == same_members(a@, b@),
        r <==> forall|v: usize| a@.contains(v) <==> #[trigger] b@.contains(v),
        r <==> a@.to_set() == b@.to_set(),
{
    proof {
        lemma_same_members(a@, b@);
    }
    check_includes(a, b) && check_includes(b, a)
}

/// The features of one side of the pairs.
pub open spec fn side_of(pairs: Seq<(usize, usize)>, first: bool) -> Seq<usize> {
    Seq::new(
        pairs.len(),
        |i: int|
            if first {
                pairs[i].0
            } else {
                pairs[i].1
            },
    )
}

fn take_side(pairs: &Vec<(usize, usize)>, first: bool) -> (r: Vec<usize>)
    ensures
        r@ == side_of(pairs@, first),
{
    let mut out: Vec<usize> = Vec::new();
    let mut i: usize = 0;
    while i < pairs.len()
        invariant
            i <= pairs@.len(),
            out@ == side_of(pairs@, first).take(i as int),
        decreases pairs@.len() - i,
    {
        let (a, b): (usize, usize) = pairs[i];
        out.push(
            if first {
                a
            } else {
                b
            },
        );
        assert(out@ =~= side_of(pairs@, first).take(i + 1));
        i = i + 1;
    }
    assert(out@ =~= side_of(pairs@, first));
    out
}

/// Compares the features of a packed position for the side to move, and those for the other side,
/// with the features of an entry, of which White's are those of the side to move if it is White's
/// turn.
pub fn compare(
    lookup: &Lookup,
    board: &ChessBoard,
    is_black: bool,
    pov0: &Vec<usize>,
    pov1: &Vec<usize>,
) -> (r: (bool, bool))
    requires
        inputs::is_readable(*board),
    ensures
        ({
            let pos = AresChessBoard { board: *board, stm_is_black: false };
            let (mover, other) = if is_black {
                (pov1@, pov0@)
            } else {
                (pov0@, pov1@)
            };
            &&& r.0 == same_members(inputs::sorted_features(pos.position(), Color::White), mover)
            &&& r.1 == same_members(inputs::sorted_features(pos.position(), Color::Black), other)
            &&& r.0 <==> features::features_of(pos.position(), Color::White).to_set()
                == mover.to_set()
            &&& r.1 <==> features::features_of(pos.position(), Color::Black).to_set()
                == other.to_set()
        }),
{
    let pos: AresChessBoard = AresChessBoard { board: *board, stm_is_black: false };
    let pairs: Vec<(usize, usize)> = AresThreats::map_pairs(lookup, &pos);
    let stm: Vec<usize> = take_side(&pairs, true);
    let ntm: Vec<usize> = take_side(&pairs, false);
    proof {
        inputs::lemma_pairs_lists(pos);
        assert(stm@ =~= inputs::sorted_features(pos.position(), Color::White));
        assert(ntm@ =~= inputs::sorted_features(pos.position(), Color::Black));
        inputs::lemma_sorted_members(pos.position(), Color::White);
        inputs::lemma_sorted_members(pos.position(), Color::Black);
    }
    if is_black {
        (have_same_members(&stm, pov1), have_same_members(&ntm, pov0))
    } else {
        (have_same_members(&stm, pov0), have_same_members(&ntm, pov1))
    }
}

/// The features of a packed position agree with the features of the position with the pieces in
/// their own colours: the side to move has White's if it is White's turn and Black's if it is
/// Black's, and the other side has the others, as long as each side has exactly one king.
pub proof fn lemma_training_parity(board: ChessBoard, is_black: bool)
    requires
        inputs::is_readable(board),
        packed::is_listing(packed::board_pieces(board), packed::board_occ(board)),
        board::has_both_kings(packed::board_pieces(board)),
    ensures
        ({
            let pos = AresChessBoard { board, stm_is_black: false };
            let own = AresChessBoard { board, stm_is_black: is_black };
            let pov0 = inputs::sorted_features(own.position(), Color::White);
            let pov1 = inputs::sorted_features(own.position(), Color::Black);
            let (mover, other) = if is_black {
                (pov1, pov0)
            } else {
                (pov0, pov1)
            };
            &&& same_members(inputs::sorted_features(pos.position(), Color::White), mover)
            &&& same_members(inputs::sorted_features(pos.position(), Color::Black), other)
        }),
{
    if is_black {
        inputs::lemma_training_frame(board);
    }
}

/// The packed position that a FEN stands for, if it stands for one that can be read.
pub open spec fn fen_board(fen: Seq<char>) -> Option<ChessBoard> {
    let entry = fen::entry_of(fen);
    if fen::in_range(entry) {
        match packed::parsed_board(entry) {
            Some(board) => if inputs::is_readable(board) {
                Some(board)
            } else {
                None
            },
            None => None,
        }
    } else {
        None
    }
}

/// Reads a FEN: the packed position and whose turn it is.
pub fn fen_position(fen: &Vec<char>) -> (r: Option<AresChessBoard>)
    ensures
        r is Some <==> fen_board(fen@) is Some,
        r is Some <==> fen::in_range(fen@ + " | 0 | 0.5"@) && packed::parsed_board(
            fen@ + " | 0 | 0.5"@,
        ) is Some && inputs::is_readable(packed::parsed_board(fen@ + " | 0 | 0.5"@)->0),
        r matches Some(pos) ==> packed::parsed_board(fen@ + " | 0 | 0.5"@) == Some(pos.board),
        r matches Some(pos) ==> {
            &&& pos.board == fen_board(fen@)->0
            &&& pos.stm_is_black == fen::is_black_to_move(fen@)
            &&& pos.wf()
            &&& packed::is_listing(packed::board_pieces(pos.board), packed::board_occ(pos.board))
        },
{
    let entry: Vec<char> = fen::make_entry(fen);
    if !fen::check_entry(&entry) {
        return None;
    }
    match packed::parse_board(&entry) {
        Some(board) => {
            let pos: AresChessBoard = AresChessBoard {
                board,
                stm_is_black: fen::black_to_move(fen),
            };
            if pos.is_valid() {
                Some(pos)
            } else {
                None
            }
        },
        None => None,
    }
}

/// The position that a FEN stands for, with its features for White and for Black.
pub open spec fn fen_entry(fen: Seq<char>) -> Option<EntryModel> {
    match fen_board(fen) {
        Some(board) => {
            let pos = AresChessBoard { board, stm_is_black: fen::is_black_to_move(fen) };
            Some(
                EntryModel {
                    fen,
                    pov0: inputs::sorted_features(pos.position(), Color::White),
                    pov1: inputs::sorted_features(pos.position(), Color::Black),
                },
            )
        },
        None => None,
    }
}

/// Computes the features of the position that a FEN stands for, for White and for Black.
pub fn fen_features(lookup: &Lookup, fen: &Vec<char>) -> (r: Option<Entry>)
    ensures
        r is Some <==> fen_entry(fen@) is Some,
        r matches Some(entry) ==> fen_entry(fen@) == Some(entry@),
        r matches Some(entry) ==> {
            let p = Position::of_sets(
                board::piece_sets(
                    packed::board_pieces(packed::parsed_board(fen@ + " | 0 | 0.5"@)->0),
                    fen::is_black_to_move(fen@),
                ),
            );
            &&& entry.fen@ == fen@
            &&& entry.pov0@.to_multiset() == features::features_of(p, Color::White).to_multiset()
            &&& entry.pov1@.to_multiset() == features::features_of(p, Color::Black).to_multiset()
            &&& forall|i: int, j: int|
                0 <= i < j < entry.pov0@.len() ==> entry.pov0@[i] <= entry.pov0@[j]
            &&& forall|i: int, j: int|
                0 <= i < j < entry.pov1@.len() ==> entry.pov1@[i] <= entry.pov1@[j]
        },
{
    match fen_position(fen) {
        Some(pos) => {
            let copy: Vec<char> = text::part(fen, 0, fen.len());
            assert(copy@ =~= fen@);
            let pov0: Vec<usize> = AresThreats::features(lookup, &pos, true);
            let pov1: Vec<usize> = AresThreats::features(lookup, &pos, false);
            Some(Entry { fen: copy, pov0, pov1 })
        },
        None => None,
    }
}

/// The positions that some FENs stand for, with their features, or `None` if one of them stands for
/// no position.
pub open spec fn fen_entries(fens: Seq<Seq<char>>) -> Option<Seq<EntryModel>> {
    if forall|i: int| 0 <= i < fens.len() ==> fen_entry(#[trigger] fens[i]) is Some {
        Some(Seq::new(fens.len(), |i: int| fen_entry(fens[i])->0))
    } else {
        None
    }
}

/// Computes the features of all the positions of a list, or returns `None` if one of its FENs stands
/// for no position.
pub fn corpus_features(lookup: &Lookup, s: &Vec<char>) -> (r: Option<Vec<Entry>>)
    ensures
        r is Some <==> fen_entries(fens_in(lines(s@))) is Some,
        r matches Some(v) ==> fen_entries(fens_in(lines(s@))) == Some(entries(v@)),
        r matches Some(v) ==> {
            &&& v@.len() == fens_in(lines(s@)).len()
            &&& forall|i: int|
                0 <= i < v@.len() ==> (#[trigger] v@[i]).fen@ == fens_in(lines(s@))[i]
                    && fen_entry(fens_in(lines(s@))[i]) == Some(v@[i]@)
        },
{
    let fens: Vec<Vec<char>> = parse_fens(s);
    let ghost all = fens_in(lines(s@));
    let mut out: Vec<Entry> = Vec::new();
    let mut i: usize = 0;
    while i < fens.len()
        invariant
            i <= fens@.len(),
            all == fens_in(lines(s@)),
            all == text::texts(fens@),
            out@.len() == i,
            forall|j: int| 0 <= j < i ==> (#[trigger] out@[j]).fen@ == all[j],
            forall|j: int| 0 <= j < i ==> fen_entry(#[trigger] all[j]) == Some(out@[j]@),
        decreases fens@.len() - i,
    {
        assert(all[i as int] == fens@[i as int]@);
        match fen_features(lookup, &fens[i]) {
            Some(entry) => {
                out.push(entry);
            },
            None => {
                assert(fen_entry(all[i as int]) is None);
                return None;
            },
        }
        i = i + 1;
    }
    assert(entries(out@) =~= Seq::new(all.len(), |j: int| fen_entry(all[j])->0));
    Some(out)
}

/// Whether the features of the packed position of an entry agree with the entry: those for the side
/// to move, and those for the other side. `None` if the FEN stands for no position.
pub open spec fn verdict(entry: EntryModel) -> Option<(bool, bool)> {
    match fen_board(entry.fen) {
        Some(board) => {
            let pos = AresChessBoard { board, stm_is_black: false };
            let (mover, other) = if fen::is_black_to_move(entry.fen) {
                (entry.pov1, entry.pov0)
            } else {
                (entry.pov0, entry.pov1)
            };
            Some(
                (
                    same_members(inputs::sorted_features(pos.position(), Color::White), mover),
                    same_members(inputs::sorted_features(pos.position(), Color::Black), other),
                ),
            )
        },
        None => None,
    }
}

/// Compares the features of the packed position of an entry with the entry.
pub fn compare_entry(lookup: &Lookup, entry: &Entry) -> (r: Option<(bool, bool)>)
    ensures
        r == verdict(entry@),
        r matches Some(found) ==> {
            let pos = AresChessBoard { board: fen_board(entry.fen@)->0, stm_is_black: false };
            let is_black = fen::is_black_to_move(entry.fen@);
            &&& found.0 <==> features::features_of(pos.position(), Color::White).to_set() == (
            if is_black {
                entry.pov1@.to_set()
            } else {
                entry.pov0@.to_set()
            })
            &&& found.1 <==> features::features_of(pos.position(), Color::Black).to_set() == (
            if is_black {
                entry.pov0@.to_set()
            } else {
                entry.pov1@.to_set()
            })
        },
{
    match fen_position(&entry.fen) {
        Some(pos) => {
            Some(compare(lookup, &pos.board, pos.stm_is_black, &entry.pov0, &entry.pov1))
        },
        None => None,
    }
}

/// The verdicts on all the entries of a list, or `None` if one of their FENs stands for no position.
pub open spec fn verdicts(list: Seq<EntryModel>) -> Option<Seq<(bool, bool)>> {
    if forall|i: int| 0 <= i < list.len() ==> verdict(#[trigger] list[i]) is Some {
        Some(Seq::new(list.len(), |i: int| verdict(list[i])->0))
    } else {
        None
    }
}

/// Compares the features of the packed positions of a list with the list.
pub fn compare_entries(lookup: &Lookup, list: &Vec<Entry>) -> (r: Option<Vec<(bool, bool)>>)
    ensures
        r is Some <==> verdicts(entries(list@)) is Some,
        r matches Some(v) ==> verdicts(entries(list@)) == Some(v@),
        r matches Some(v) ==> v@.len() == list@.len() && forall|i: int|
            0 <= i < list@.len() ==> verdict((#[trigger] list@[i])@) == Some(v@[i]),
{
    let ghost all = entries(list@);
    let mut out: Vec<(bool, bool)> = Vec::new();
    let mut i: usize = 0;
    while i < list.len()
        invariant
            i <= list@.len(),
            all == entries(list@),
            out@.len() == i,
            forall|j: int| 0 <= j < i ==> verdict(#[trigger] all[j]) == Some(out@[j]),
        decreases list@.len() - i,
    {
        assert(all[i as int] == list@[i as int]@);
        match compare_entry(lookup, &list[i]) {
            Some(found) => {
                out.push(found);
            },
            None => {
                assert(verdict(all[i as int]) is None);
                return None;
            },
        }
        i = i + 1;
    }
    assert(out@ =~= Seq::new(all.len(), |j: int| verdict(all[j])->0));
    assert forall|j: int| 0 <= j < list@.len() implies verdict((#[trigger] list@[j])@) == Some(
        out@[j],
    ) by {
        assert(all[j] == list@[j]@);
    }
    Some(out)
}

/// How many positions of a list agreed with it: in both lists of features, in that of the side to
/// move, and in that of the other side.
#[derive(Copy, Clone, Eq, PartialEq, Structural, Debug)]
pub struct Agreement {
    pub positions: usize,
    pub agreed: usize,
    pub stm_agreed: usize,
    pub ntm_agreed: usize,
}

/// How many of the verdicts, the first ones and the second ones as far as they count, are in favour.
pub open spec fn in_favour(list: Seq<(bool, bool)>, first: bool, second: bool) -> nat
    decreases list.len(),
{
    if list.len() == 0 {
        0
    } else {
        in_favour(list.drop_last(), first, second) + if (first ==> list.last().0) && (second
            ==> list.last().1) {
            1nat
        } else {
            0nat
        }
    }
}

proof fn lemma_in_favour(list: Seq<(bool, bool)>, first: bool, second: bool)
    ensures
        in_favour(list, first, second) <= list.len(),
        in_favour(list, first, second) == list.len() <==> forall|i: int|
            0 <= i < list.len() ==> (first ==> (#[trigger] list[i]).0) && (second ==> list[i].1),
    decreases list.len(),
{
    if list.len() > 0 {
        let fewer = list.drop_last();
        lemma_in_favour(fewer, first, second);
        assert(forall|i: int| 0 <= i < fewer.len() ==> #[trigger] fewer[i] == list[i]);
        assert(list.last() == list[list.len() - 1]);
        if in_favour(list, first, second) == list.len() {
            assert forall|i: int| 0 <= i < list.len() implies (first ==> (#[trigger] list[i]).0) && (
            second ==> list[i].1) by {
                if i < fewer.len() {
                    assert(fewer[i] == list[i]);
                }
            }
        }
    }
}

/// The verdicts in favour are those that a test lets through.
proof fn lemma_favour_filter(
    list: Seq<(bool, bool)>,
    first: bool,
    second: bool,
    test: spec_fn((bool, bool)) -> bool,
)
    requires
        forall|v: (bool, bool)| #[trigger]
            test(v) <==> ((first ==> v.0) && (second ==> v.1)),
    ensures
        in_favour(list, first, second) == list.filter(test).len(),
    decreases list.len(),
{
    reveal(Seq::filter);
    if list.len() > 0 {
        lemma_favour_filter(list.drop_last(), first, second, test);
    }
}

impl Agreement {
    /// The counts of a list of verdicts.
    pub open spec fn counts(self, list: Seq<(bool, bool)>) -> bool {
        &&& self.positions == list.len()
        &&& self.agreed == in_favour(list, true, true)
        &&& self.stm_agreed == in_favour(list, true, false)
        &&& self.ntm_agreed == in_favour(list, false, true)
    }

    /// Counts the verdicts.
    pub fn of(list: &Vec<(bool, bool)>) -> (r: Agreement)
        ensures
            r.counts(list@),
            r.positions == list@.len(),
            r.agreed == list@.filter(|v: (bool, bool)| v.0 && v.1).len(),
            r.stm_agreed == list@.filter(|v: (bool, bool)| v.0).len(),
            r.ntm_agreed == list@.filter(|v: (bool, bool)| v.1).len(),
    {
        let mut agreed: usize = 0;
        let mut stm_agreed: usize = 0;
        let mut ntm_agreed: usize = 0;
        let mut i: usize = 0;
        assert(list@.take(0) =~= Seq::empty());
        while i < list.len()
            invariant
                i <= list@.len(),
                agreed == in_favour(list@.take(i as int), true, true),
                stm_agreed == in_favour(list@.take(i as int), true, false),
                ntm_agreed == in_favour(list@.take(i as int), false, true),
            decreases list@.len() - i,
        {
            let (stm, ntm): (bool, bool) = list[i];
            proof {
                assert(list@.take(i + 1).drop_last() =~= list@.take(i as int));
                lemma_in_favour(list@.take(i as int), true, true);
                lemma_in_favour(list@.take(i as int), true, false);
                lemma_in_favour(list@.take(i as int), false, true);
            }
            if stm && ntm {
                agreed = agreed + 1;
            }
            if stm {
                stm_agreed = stm_agreed + 1;
            }
            if ntm {
                ntm_agreed = ntm_agreed + 1;
            }
            i = i + 1;
        }
        assert(list@.take(i as int) =~= list@);
        proof {
            lemma_favour_filter(list@, true, true, |v: (bool, bool)| v.0 && v.1);
            lemma_favour_filter(list@, true, false, |v: (bool, bool)| v.0);
            lemma_favour_filter(list@, false, true, |v: (bool, bool)| v.1);
        }
        Agreement { positions: list.len(), agreed, stm_agreed, ntm_agreed }
    }

    /// Whether all the lists of features agreed.
    pub fn is_full(&self) -> (r: bool)
        ensures
            r == (self.stm_agreed == self.positions && self.ntm_agreed == self.positions),
    {
        self.stm_agreed == self.positions && self.ntm_agreed == self.positions
    }
}

/// The agreement is full exactly when every verdict is in favour on both sides, and then every
/// position has agreed.
pub proof fn lemma_full_agreement(found: Agreement, list: Seq<(bool, bool)>)
    requires
        found.counts(list),
    ensures
        (found.stm_agreed == found.positions && found.ntm_agreed == found.positions) <==> forall|
            i: int,
        |
            0 <= i < list.len() ==> #[trigger] list[i] == (true, true),
        (found.stm_agreed == found.positions && found.ntm_agreed == found.positions)
            <==> found.agreed == found.positions,
{
    lemma_in_favour(list, true, true);
    lemma_in_favour(list, true, false);
    lemma_in_favour(list, false, true);
}

/// An entry with the features of its own FEN is agreed with on both sides, as long as each side has
/// exactly one king.
pub proof fn lemma_own_entry_agrees(fen: Seq<char>, entry: EntryModel)
    requires
        fen_entry(fen) == Some(entry),
        packed::is_listing(
            packed::board_pieces(fen_board(fen)->0),
            packed::board_occ(fen_board(fen)->0),
        ),
        board::has_both_kings(packed::board_pieces(fen_board(fen)->0)),
    ensures
        verdict(entry) == Some((true, true)),
{
    lemma_training_parity(fen_board(fen)->0, fen::is_black_to_move(fen));
}

} // verus!
