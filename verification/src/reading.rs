//! What is read from sets of squares, from lists of pieces and from text.
use vstd::prelude::*;

use crate::bits;
use crate::board;
use crate::board::Position;
use crate::corpus;
use crate::corpus::{EntryModel, Reading};
use crate::features;
use crate::fen;
use crate::text;
use crate::text::CharClass;
use crate::types::Color;

verus! {

/// A square is occupied exactly when one of the sets holds it, and the piece on it is that of the
/// last set that does.
pub proof fn lemma_piece_on(sets: Seq<u64>, s: int, q: int)
    requires
        0 <= s < 64,
        0 <= q < 12,
        bits::member(sets[q], s),
        forall|r: int| q < r < 12 ==> !bits::member(#[trigger] sets[r], s),
    ensures
        bits::member(Position::of_sets(sets).occ, s),
        Position::of_sets(sets).pieces[s].0 == q,
{
    board::lemma_last_set(sets, s, 12);
    board::lemma_union(sets, s, 12);
}

/// A square that no set holds is empty.
pub proof fn lemma_empty_square(sets: Seq<u64>, s: int)
    requires
        0 <= s < 64,
        forall|r: int| 0 <= r < 12 ==> !bits::member(#[trigger] sets[r], s),
    ensures
        !bits::member(Position::of_sets(sets).occ, s),
{
    board::lemma_last_set(sets, s, 12);
    board::lemma_union(sets, s, 12);
}

/// The king of a colour is on the highest square of its set, or on the first square if the set is
/// empty.
pub proof fn lemma_king_square(sets: Seq<u64>, c: Color, set: u64, k: int)
    requires
        c is White ==> set == sets[10],
        c is Black ==> set == sets[11],
        0 <= k < 64,
        forall|s: int| k < s < 64 ==> !bits::member(set, s),
        k == 0 || bits::member(set, k),
    ensures
        Position::of_sets(sets).king_of(c) == k,
{
    if bits::member(set, k) {
        board::lemma_highest(set, k, 64);
    } else {
        lemma_no_square(set, 64);
    }
}

proof fn lemma_no_square(set: u64, n: nat)
    requires
        n <= 64,
        forall|s: int| 0 <= s < 64 ==> !bits::member(set, s),
    ensures
        board::highest_below(set, n) == 0,
    decreases n,
{
    if n > 0 {
        lemma_no_square(set, (n - 1) as nat);
    }
}

/// What a code and a square of a list of pieces stand for: the low three bits are the kind, the
/// fourth bit tells the side that is not to move; if Black is to move, that side is White and the
/// ranks are reversed.
pub proof fn lemma_code(code: u8, square: u8, stm_is_black: bool)
    requires
        code % 8 < 6,
        square < 64,
    ensures
        board::code_piece(code, stm_is_black) / 2 == code % 8,
        board::code_piece(code, stm_is_black) % 2 == 1 <==> (code / 8 % 2 == 0) == stm_is_black,
        0 <= board::code_piece(code, stm_is_black) < 12,
        0 <= board::code_square(square, stm_is_black) < 64,
        board::code_square(square, stm_is_black) % 8 == square % 8,
        board::code_square(square, stm_is_black) / 8 == if stm_is_black {
            7 - square as int / 8
        } else {
            square as int / 8
        },
{
    assert(code / 8 % 2 == 0 || code / 8 % 2 == 1);
}

/// The set of a piece holds a square exactly when an entry of the list says so.
pub proof fn lemma_list_sets(pieces: Seq<(u8, u8)>, stm_is_black: bool, p: int, s: int)
    requires
        forall|i: int|
            0 <= i < pieces.len() ==> (#[trigger] pieces[i]).0 % 8 < 6 && pieces[i].1 < 64,
        0 <= p < 12,
        0 <= s < 64,
    ensures
        bits::member(board::piece_sets(pieces, stm_is_black)[p], s) <==> exists|i: int|
            0 <= i < pieces.len() && board::code_piece((#[trigger] pieces[i]).0, stm_is_black) == p
                && board::code_square(pieces[i].1, stm_is_black) == s,
{
    board::lemma_piece_sets(pieces, stm_is_black, p, s);
    if exists|i: int|
        0 <= i < pieces.len() && board::code_piece((#[trigger] pieces[i]).0, stm_is_black) == p
            && board::code_square(pieces[i].1, stm_is_black) == s {
        let i = choose|i: int|
            0 <= i < pieces.len() && board::code_piece((#[trigger] pieces[i]).0, stm_is_black) == p
                && board::code_square(pieces[i].1, stm_is_black) == s;
        assert(board::puts(pieces, stm_is_black, i, p, s));
    }
    if exists|i: int| 0 <= i < pieces.len() && #[trigger] board::puts(pieces, stm_is_black, i, p, s) {
        let i = choose|i: int|
            0 <= i < pieces.len() && #[trigger] board::puts(pieces, stm_is_black, i, p, s);
        assert(pieces[i] == pieces[i]);
    }
}

/// What is dropped at the front are characters of the kind, and the first one kept is not.
pub proof fn lemma_dropped_front(s: Seq<char>, class: CharClass) -> (k: int)
    ensures
        0 <= k <= s.len(),
        text::drop_front(s, class) == s.skip(k),
        forall|i: int| 0 <= i < k ==> class.contains(#[trigger] s[i]),
        k < s.len() ==> !class.contains(s[k]),
    decreases s.len(),
{
    if s.len() > 0 && class.contains(s[0]) {
        let j = lemma_dropped_front(s.skip(1), class);
        assert(s.skip(1).skip(j) =~= s.skip(j + 1));
        assert forall|i: int| 0 <= i < j + 1 implies class.contains(#[trigger] s[i]) by {
            if i > 0 {
                assert(s.skip(1)[i - 1] == s[i]);
            }
        }
        j + 1
    } else {
        assert(s.skip(0) =~= s);
        0
    }
}

/// What is dropped at the back are characters of the kind, and the last one kept is not.
pub proof fn lemma_dropped_back(s: Seq<char>, class: CharClass) -> (k: int)
    ensures
        0 <= k <= s.len(),
        text::drop_back(s, class) == s.take(k),
        forall|i: int| k <= i < s.len() ==> class.contains(#[trigger] s[i]),
        k > 0 ==> !class.contains(s[k - 1]),
    decreases s.len(),
{
    if s.len() > 0 && class.contains(s.last()) {
        let k = lemma_dropped_back(s.drop_last(), class);
        assert(s.drop_last().take(k) =~= s.take(k));
        assert forall|i: int| k <= i < s.len() implies class.contains(#[trigger] s[i]) by {
            if i < s.len() - 1 {
                assert(s.drop_last()[i] == s[i]);
            }
        }
        k
    } else {
        assert(s.take(s.len() as int) =~= s);
        s.len() as int
    }
}

/// A text with no white space at its ends stays as it is when white space is added there and
/// trimmed.
pub proof fn lemma_trimmed(before: Seq<char>, s: Seq<char>, after: Seq<char>)
    requires
        s.len() > 0,
        !text::is_space(s[0]),
        !text::is_space(s.last()),
        forall|i: int| 0 <= i < before.len() ==> text::is_space(#[trigger] before[i]),
        forall|i: int| 0 <= i < after.len() ==> text::is_space(#[trigger] after[i]),
    ensures
        text::trimmed(before + s + after) == s,
{
    let all = before + s + after;
    let n = before.len() as int;
    let k = lemma_dropped_front(all, CharClass::Space);
    assert(all[n] == s[0]);
    if k < n {
        assert(all[k] == before[k]);
    }
    assert(k == n);
    let rest = all.skip(n);
    assert(rest =~= s + after);
    let m = lemma_dropped_back(rest, CharClass::Space);
    let l = s.len() as int;
    assert(rest[l - 1] == s.last());
    if m > l {
        assert(rest[m - 1] == after[m - 1 - l]);
    }
    assert(m == l);
    assert(rest.take(l) =~= s);
}

/// The text that parts and separators between them make.
pub open spec fn joined(parts: Seq<Seq<char>>, separator: char) -> Seq<char>
    decreases parts.len(),
{
    if parts.len() == 0 {
        Seq::empty()
    } else if parts.len() == 1 {
        parts[0]
    } else {
        joined(parts.drop_last(), separator).push(separator) + parts.last()
    }
}

/// The parts of a text hold no separator, and joining them gives the text back.
pub proof fn lemma_parts(s: Seq<char>, separator: char)
    ensures
        text::parts(s, separator).len() > 0,
        joined(text::parts(s, separator), separator) == s,
        forall|i: int|
            0 <= i < text::parts(s, separator).len() ==> !(
            #[trigger] text::parts(s, separator)[i]).contains(separator),
    decreases s.len(),
{
    let all = text::parts(s, separator);
    if s.len() == 0 {
        assert(joined(all, separator) =~= s);
    } else {
        let fewer = text::parts(s.drop_last(), separator);
        lemma_parts(s.drop_last(), separator);
        assert forall|i: int| 0 <= i < all.len() implies !(#[trigger] all[i]).contains(
            separator,
        ) by {
            if i < fewer.len() {
                assert(!fewer[i].contains(separator));
            }
            if s.last() != separator && i == fewer.len() - 1 {
                assert(all[i] == fewer.last().push(s.last()));
                if all[i].contains(separator) {
                    let j = choose|j: int| 0 <= j < all[i].len() && all[i][j] == separator;
                    assert(fewer.last()[j] == separator);
                }
            }
        }
        if s.last() == separator {
            assert(all.drop_last() =~= fewer);
            assert(joined(all, separator) =~= s);
        } else {
            assert(all.drop_last() =~= fewer.drop_last());
            assert(all.last() == fewer.last().push(s.last()));
            if fewer.len() == 1 {
                assert(joined(all, separator) =~= s);
            } else {
                assert(joined(all, separator) =~= joined(fewer, separator).push(s.last()));
                assert(joined(all, separator) =~= s);
            }
        }
    }
}

/// The decimal digits of a number are read as that number.
pub proof fn lemma_decimal(n: nat)
    ensures
        text::is_digits(features::decimal(n)),
        text::value(features::decimal(n)) == n,
        n <= usize::MAX ==> text::number(features::decimal(n)) == Some(n as usize),
    decreases n,
{
    let s = features::decimal(n);
    let digit = ('0' as int + n % 10) as char;
    assert('0' <= digit <= '9' && digit as int - '0' as int == n % 10);
    if n < 10 {
        assert(s.drop_last() =~= Seq::empty());
        assert(text::value(s.drop_last()) == 0);
    } else {
        let fewer = features::decimal(n / 10);
        lemma_decimal(n / 10);
        assert(s.drop_last() =~= fewer);
        assert forall|i: int| 0 <= i < s.len() implies '0' <= #[trigger] s[i] <= '9' by {
            if i < fewer.len() {
                assert(fewer[i] == s[i]);
            }
        }
    }
    assert('0' <= s[0] <= '9');
}

/// A list of numbers in decimal digits, with white space around them, is read as these numbers.
pub proof fn lemma_numbers(parts: Seq<Seq<char>>, numbers: Seq<usize>)
    requires
        parts.len() == numbers.len(),
        forall|i: int|
            0 <= i < parts.len() ==> text::trimmed(#[trigger] parts[i]) == features::decimal(
                numbers[i] as nat,
            ),
    ensures
        corpus::numbers_in(parts) == numbers,
    decreases parts.len(),
{
    if parts.len() > 0 {
        let n = parts.len() - 1;
        lemma_numbers(parts.drop_last(), numbers.drop_last());
        lemma_decimal(numbers[n] as nat);
        assert(parts.last() == parts[n]);
        assert(corpus::numbers_in(parts) =~= numbers);
    } else {
        assert(corpus::numbers_in(parts) =~= numbers);
    }
}

/// Whose turn it is is told by the second word: Black's if it is `b`, and White's otherwise.
pub proof fn lemma_turn(rows: Seq<char>, turn: Seq<char>, rest: Seq<char>)
    requires
        rows.len() > 0,
        turn.len() > 0,
        forall|i: int| 0 <= i < rows.len() ==> !text::is_space(#[trigger] rows[i]),
        forall|i: int| 0 <= i < turn.len() ==> !text::is_space(#[trigger] turn[i]),
        rest.len() > 0 ==> text::is_space(rest[0]),
    ensures
        fen::is_black_to_move(rows + seq![' '] + turn + rest) <==> turn == seq!['b'],
{
    let all = rows + seq![' '] + turn + rest;
    let n = rows.len() as int;
    assert(text::is_space(' '));
    let i = lemma_dropped_front(all, CharClass::Space);
    assert(all[0] == rows[0]);
    assert(i == 0);
    assert(all.skip(0) =~= all);
    let j = lemma_dropped_front(all, CharClass::Word);
    assert(all[n] == ' ');
    if j < n {
        assert(all[j] == rows[j]);
    }
    assert(j == n);
    let tail = all.skip(n);
    let k = lemma_dropped_front(tail, CharClass::Space);
    assert(tail[0] == ' ' && tail[1] == turn[0]);
    assert(k == 1);
    let second = tail.skip(1);
    assert(second =~= turn + rest);
    if turn == seq!['b'] {
        if rest.len() > 0 {
            assert(second[1] == rest[0]);
        }
    } else if turn.len() == 1 {
        assert(second[0] == turn[0]);
        if turn[0] == 'b' {
            assert(turn =~= seq!['b']);
        }
    } else {
        assert(second[1] == turn[1]);
    }
}

proof fn lemma_stripped(prefix: Seq<char>, rest: Seq<char>)
    ensures
        text::stripped(prefix + rest, prefix) == Some(rest),
{
    assert((prefix + rest).take(prefix.len() as int) =~= prefix);
    assert((prefix + rest).skip(prefix.len() as int) =~= rest);
}

/// The three lines of a position make one entry, behind those of the lines before.
pub proof fn lemma_entry_lines(
    before: Seq<Seq<char>>,
    fen: Seq<char>,
    pov0: Seq<char>,
    pov1: Seq<char>,
)
    requires
        corpus::after_lines(before) is Some,
    ensures
        ({
            let lines = before.push("FEN "@ + fen).push("POV 0 count "@ + pov0).push(
                "POV 1 count "@ + pov1,
            );
            &&& corpus::after_lines(lines) is Some
            &&& corpus::after_lines(lines)->0.entries == corpus::after_lines(
                before,
            )->0.entries.push(
                EntryModel {
                    fen: text::trimmed(fen),
                    pov0: corpus::list_numbers(corpus::after_colon(pov0)),
                    pov1: corpus::list_numbers(corpus::after_colon(pov1)),
                },
            )
            &&& corpus::fens_in(before.push("FEN "@ + fen)) == corpus::fens_in(before).push(
                text::trimmed(fen),
            )
        }),
{
    reveal_strlit("FEN ");
    reveal_strlit("POV 0 count ");
    reveal_strlit("POV 1 count ");
    let (a, b, c) = ("FEN "@ + fen, "POV 0 count "@ + pov0, "POV 1 count "@ + pov1);
    lemma_stripped("FEN "@, fen);
    lemma_stripped("POV 0 count "@, pov0);
    lemma_stripped("POV 1 count "@, pov1);
    assert(b[0] == 'P' && c[0] == 'P' && c[4] == '1');
    assert(b.take(4)[0] == 'P' && c.take(4)[0] == 'P');
    assert(text::stripped(b, "FEN "@) is None);
    assert(text::stripped(c, "FEN "@) is None);
    assert(c.take(12)[4] == '1');
    assert("POV 0 count "@[4] == '0');
    assert(text::stripped(c, "POV 0 count "@) is None);
    let one = before.push(a);
    let two = one.push(b);
    let three = two.push(c);
    assert(one.drop_last() =~= before && two.drop_last() =~= one && three.drop_last() =~= two);
    assert(one.last() == a && two.last() == b && three.last() == c);
    let known = corpus::after_lines(before)->0;
    let first = Reading { fen: Some(text::trimmed(fen)), pov0: None, entries: known.entries };
    assert(corpus::after_lines(one) == Some(first));
    let numbers = corpus::list_numbers(corpus::after_colon(pov0));
    let second = Reading { pov0: Some(numbers), ..first };
    assert(corpus::after_lines(two) == Some(second));
    assert(corpus::after_lines(three) == corpus::after_line(second, c));
}

/// The text behind a colon is what stands behind the first one.
pub proof fn lemma_after_colon(before: Seq<char>, rest: Seq<char>)
    requires
        !before.contains(':'),
    ensures
        corpus::after_colon(before + seq![':'] + rest) == rest,
        corpus::after_colon(before) == Seq::<char>::empty(),
{
    let all = before + seq![':'] + rest;
    let n = before.len() as int;
    let k = lemma_dropped_front(all, CharClass::IsNot(':'));
    assert(all[n] == ':');
    if k < n {
        assert(all[k] == before[k]);
        assert(before.contains(before[k]));
    }
    assert(k == n);
    assert(all.skip(n).skip(1) =~= rest);
    let j = lemma_dropped_front(before, CharClass::IsNot(':'));
    if j < n {
        assert(before.contains(before[j]));
    }
}

/// The text that lines make, each with a line feed behind it.
pub open spec fn ended(lines: Seq<Seq<char>>) -> Seq<char>
    decreases lines.len(),
{
    if lines.len() == 0 {
        Seq::empty()
    } else {
        (ended(lines.drop_last()) + lines.last()).push('\n')
    }
}

/// A text without a separator makes the last part longer.
proof fn lemma_parts_append(s: Seq<char>, more: Seq<char>, separator: char)
    requires
        !more.contains(separator),
    ensures
        text::parts(s + more, separator) == text::parts(s, separator).drop_last().push(
            text::parts(s, separator).last() + more,
        ),
    decreases more.len(),
{
    let all = text::parts(s, separator);
    lemma_parts(s, separator);
    if more.len() == 0 {
        assert(s + more =~= s);
        assert(all.last() + more =~= all.last());
        assert(all =~= all.drop_last().push(all.last()));
    } else {
        let fewer = more.drop_last();
        assert forall|i: int| 0 <= i < fewer.len() implies fewer[i] != separator by {
            assert(more.contains(more[i]));
        }
        lemma_parts_append(s, fewer, separator);
        assert((s + more).drop_last() =~= s + fewer);
        assert((s + more).last() == more.last());
        assert(more.contains(more.last()));
        let shorter = text::parts(s + fewer, separator);
        assert(shorter.drop_last() =~= all.drop_last());
        assert((all.last() + fewer).push(more.last()) =~= all.last() + more);
    }
}

proof fn lemma_parts_ended(lines: Seq<Seq<char>>)
    requires
        forall|i: int| 0 <= i < lines.len() ==> !(#[trigger] lines[i]).contains('\n'),
    ensures
        text::parts(ended(lines), '\n') == lines.push(Seq::empty()),
    decreases lines.len(),
{
    let empty = Seq::<char>::empty();
    if lines.len() == 0 {
        assert(lines.push(empty) =~= seq![empty]);
    } else {
        let fewer = lines.drop_last();
        let last = lines.last();
        assert(last == lines[lines.len() - 1]);
        lemma_parts_ended(fewer);
        lemma_parts_append(ended(fewer), last, '\n');
        assert(empty + last =~= last);
        assert(fewer.push(empty).drop_last() =~= fewer);
        assert(fewer.push(last) =~= lines);
        assert(ended(lines).drop_last() =~= ended(fewer) + last);
    }
}

/// The lines of a text come back as they were written, but for a carriage return at the end of a
/// line; the last line need not end in a line feed.
pub proof fn lemma_lines(lines: Seq<Seq<char>>, rest: Seq<char>)
    requires
        forall|i: int| 0 <= i < lines.len() ==> !(#[trigger] lines[i]).contains('\n'),
        !rest.contains('\n'),
    ensures
        ({
            let found = corpus::lines(ended(lines) + rest);
            &&& found.len() == lines.len() + if rest.len() > 0 {
                1int
            } else {
                0int
            }
            &&& rest.len() > 0 ==> found.last() == rest
            &&& forall|i: int|
                0 <= i < lines.len() ==> #[trigger] found[i] == if lines[i].len() > 0
                    && lines[i].last() == '\r' {
                    lines[i].drop_last()
                } else {
                    lines[i]
                }
        }),
{
    let empty = Seq::<char>::empty();
    lemma_parts_ended(lines);
    lemma_parts_append(ended(lines), rest, '\n');
    assert(lines.push(empty).drop_last() =~= lines);
    assert(empty + rest =~= rest);
    assert(text::parts(ended(lines) + rest, '\n') == lines.push(rest));
}

/// A piece takes a column of its own.
proof fn lemma_columns(row: Seq<char>, k: int, n: int)
    requires
        0 <= k < n <= row.len(),
        fen::is_piece_letter(row[k]),
    ensures
        fen::columns(row.take(k)) < fen::columns(row.take(n)),
    decreases n,
{
    assert(row.take(n).drop_last() =~= row.take(n - 1));
    assert(row.take(n).last() == row[n - 1]);
    if k < n - 1 {
        lemma_columns(row, k, n - 1);
    }
}

/// Eight rows of eight columns, or fewer, describe a board, whoever's turn it is.
pub proof fn lemma_regular_board(board: Seq<char>, is_black: bool)
    requires
        text::parts(board, '/').len() <= 8,
        forall|i: int|
            0 <= i < text::parts(board, '/').len() ==> fen::columns(
                #[trigger] text::parts(board, '/')[i],
            ) <= 8,
    ensures
        fen::board_fits(board, is_black),
{
    let rows = text::parts(board, '/');
    assert forall|i: int| 0 <= i < rows.len() implies fen::row_fits(
        #[trigger] rows[i],
        fen::row_start(i, rows.len() as int, is_black),
    ) by {
        let row = rows[i];
        let first = fen::row_start(i, rows.len() as int, is_black);
        assert forall|k: int|
            0 <= k < row.len() && fen::is_piece_letter(#[trigger] row[k]) implies first
            + fen::columns(row.take(k)) < 64 by {
            lemma_columns(row, k, row.len() as int);
            assert(row.take(row.len() as int) =~= row);
        }
    }
}

/// A text with a character that is no digit, other than a plus sign before the digits, is no number,
/// and neither is a text without a digit.
pub proof fn lemma_no_number(s: Seq<char>, i: int)
    requires
        s.len() == 0 || (0 <= i < s.len() && !('0' <= s[i] <= '9') && (i > 0 || s[0] != '+' || s.len()
            == 1)),
    ensures
        text::number(s) is None,
{
    if s.len() > 0 && s[0] == '+' && i > 0 {
        assert(s.skip(1)[i - 1] == s[i]);
    }
}

/// A plus sign before the digits does not change a number.
pub proof fn lemma_plus_sign(n: usize)
    ensures
        text::number(seq!['+'] + features::decimal(n as nat)) == Some(n),
{
    let s = seq!['+'] + features::decimal(n as nat);
    lemma_decimal(n as nat);
    assert(s.skip(1) =~= features::decimal(n as nat));
}

/// What is no number is passed over in a list, and every number is taken.
pub proof fn lemma_next_number(parts: Seq<Seq<char>>, part: Seq<char>)
    ensures
        text::number(text::trimmed(part)) is None ==> corpus::numbers_in(parts.push(part))
            == corpus::numbers_in(parts),
        text::number(text::trimmed(part)) matches Some(v) ==> corpus::numbers_in(parts.push(part))
            == corpus::numbers_in(parts).push(v),
{
    assert(parts.push(part).drop_last() =~= parts);
}

/// A list in square brackets holds the numbers between its commas.
pub proof fn lemma_bracketed(inner: Seq<char>)
    requires
        inner.len() > 0,
        inner[0] != '[',
        inner.last() != ']',
    ensures
        corpus::list_numbers(seq![' ', '['] + inner + seq![']']) == corpus::numbers_in(
            text::parts(inner, ','),
        ),
{
    let all = seq!['['] + inner + seq![']'];
    let (space, none) = (seq![' '], Seq::<char>::empty());
    let n = inner.len() as int;
    assert(all[0] == '[' && all.last() == ']');
    lemma_trimmed(space, all, none);
    assert(seq![' ', '['] + inner + seq![']'] =~= space + all + none);
    let k = lemma_dropped_front(all, CharClass::Is('['));
    assert(all[1] == inner[0]);
    assert(k == 1);
    let rest = all.skip(1);
    assert(rest =~= inner + seq![']']);
    let m = lemma_dropped_back(rest, CharClass::Is(']'));
    assert(rest[n] == ']' && rest[n - 1] == inner.last());
    assert(m == n);
    assert(rest.take(n) =~= inner);
}

} // verus!
