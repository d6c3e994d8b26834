//! How the pieces move, stated on files and ranks.
use vstd::prelude::*;

use crate::bits;
use crate::types;
use crate::types::{Color, PieceType};

verus! {

/// The magnitude of a number.
pub open spec fn abs(x: int) -> int {
    if x < 0 {
        -x
    } else {
        x
    }
}

/// -1, 0 or 1, as the number is negative, zero or positive.
pub open spec fn sign(x: int) -> int {
    if x < 0 {
        -1
    } else if x == 0 {
        0
    } else {
        1
    }
}

/// By how many files `to` lies to the right of `from`.
pub open spec fn file_step(from: int, to: int) -> int {
    types::file_of(to) - types::file_of(from)
}

/// By how many ranks `to` lies above `from`.
pub open spec fn rank_step(from: int, to: int) -> int {
    types::rank_of(to) - types::rank_of(from)
}

/// How many king's moves `to` is away from `from`.
pub open spec fn distance(from: int, to: int) -> int {
    let (df, dr) = (abs(file_step(from, to)), abs(rank_step(from, to)));
    if df < dr {
        dr
    } else {
        df
    }
}

/// The difference between the numbers of two neighbouring squares on the way to `to`.
pub open spec fn direction(from: int, to: int) -> int {
    8 * sign(rank_step(from, to)) + sign(file_step(from, to))
}

/// The square `k` steps of the direction `dir` away from `from`.
pub open spec fn ray(from: int, dir: int, k: int) -> int {
    from + k * dir
}

/// Whether a piece of an otherwise empty board attacks the square `df` files to its right and `dr`
/// ranks above it.
pub open spec fn reaches_by(kind: PieceType, side: Color, df: int, dr: int) -> bool {
    match kind {
        PieceType::Pawn => abs(df) == 1 && dr == (if side is White {
            1int
        } else {
            -1int
        }),
        PieceType::Knight => (abs(df) == 1 && abs(dr) == 2) || (abs(df) == 2 && abs(dr) == 1),
        PieceType::Bishop => abs(df) == abs(dr) && df != 0,
        PieceType::Rook => (df == 0) != (dr == 0),
        PieceType::Queen => (abs(df) == abs(dr) && df != 0) || (df == 0) != (dr == 0),
        PieceType::King => (df != 0 || dr != 0) && abs(df) <= 1 && abs(dr) <= 1,
    }
}

/// Whether a piece standing on `from` of an otherwise empty board attacks `to`.
pub open spec fn reaches(kind: PieceType, side: Color, from: int, to: int) -> bool {
    reaches_by(kind, side, file_step(from, to), rank_step(from, to))
}

/// Pieces reach as far to the left as to the right, and those of the two colours are each other's
/// image from the far side of the board.
pub proof fn lemma_reaches_by(kind: PieceType, side: Color, df: int, dr: int)
    ensures
        reaches_by(kind, side, -df, dr) == reaches_by(kind, side, df, dr),
        reaches_by(kind, side.opposite(), df, -dr) == reaches_by(kind, side, df, dr),
        reaches_by(kind, side.opposite(), -df, -dr) == reaches_by(kind, side, df, dr),
{
}

/// Whether the piece needs an empty path to the squares that it attacks.
pub open spec fn is_slider(kind: PieceType) -> bool {
    kind is Bishop || kind is Rook || kind is Queen
}

/// Whether all the squares strictly between `from` and `to` are empty.
pub open spec fn is_clear(from: int, to: int, occ: u64) -> bool {
    forall|k: int|
        1 <= k < distance(from, to) ==> !bits::member(
            occ,
            #[trigger] ray(from, direction(from, to), k),
        )
}

/// Whether a piece standing on `from` attacks `to` when the squares of `occ` are occupied.
pub open spec fn attacks(kind: PieceType, side: Color, from: int, to: int, occ: u64) -> bool {
    &&& 0 <= to < 64
    &&& reaches(kind, side, from, to)
    &&& is_slider(kind) ==> is_clear(from, to, occ)
}

/// Multiples of -1, 0 and 1.
pub proof fn lemma_unit_multiple(k: int, e: int)
    by (nonlinear_arith)
    requires
        -1 <= e <= 1,
    ensures
        e == 0 ==> k * e == 0,
        e == 1 ==> k * e == k,
        e == -1 ==> k * e == -k,
{
}

/// Whether `to` lies on a rank, a file or a diagonal of `from`.
pub open spec fn on_line(from: int, to: int) -> bool {
    reaches(PieceType::Queen, Color::White, from, to)
}

/// A square on a line of another one is a whole number of steps away from it.
pub proof fn lemma_line(from: int, to: int)
    requires
        0 <= from < 64,
        0 <= to < 64,
        on_line(from, to),
    ensures
        to == ray(from, direction(from, to), distance(from, to)),
        1 <= distance(from, to) <= 7,
        direction(to, from) == -direction(from, to),
        distance(to, from) == distance(from, to),
{
    let (df, dr) = (file_step(from, to), rank_step(from, to));
    let (n, d) = (distance(from, to), direction(from, to));
    assert(to - from == 8 * dr + df);
    lemma_unit_multiple(n, sign(df));
    lemma_unit_multiple(n, sign(dr));
    assert(df == n * sign(df) && dr == n * sign(dr));
    assert(n * d == 8 * (n * sign(dr)) + n * sign(df)) by (nonlinear_arith)
        requires
            d == 8 * sign(dr) + sign(df),
    ;
}

/// A path is empty from one end exactly when it is empty from the other end.
pub proof fn lemma_clear_symmetric(a: int, b: int, occ: u64)
    requires
        0 <= a < 64,
        0 <= b < 64,
        on_line(a, b),
        is_clear(a, b, occ),
    ensures
        is_clear(b, a, occ),
{
    lemma_line(a, b);
    let (n, d) = (distance(a, b), direction(a, b));
    assert forall|k: int| 1 <= k < distance(b, a) implies !bits::member(
        occ,
        #[trigger] ray(b, direction(b, a), k),
    ) by {
        assert(ray(b, direction(b, a), k) == ray(a, d, n - k)) by (nonlinear_arith)
            requires
                b == ray(a, d, n),
                direction(b, a) == -d,
        ;
    }
}

/// The side whose pieces of this kind move back where those of `side` came from.
pub open spec fn reverse_side(kind: PieceType, side: Color) -> Color {
    if kind is Pawn {
        side.opposite()
    } else {
        side
    }
}

/// Attacks are mutual between two pieces of the same kind; between pawns, if their colours differ.
pub proof fn lemma_attacks_symmetric(kind: PieceType, side: Color, a: int, b: int, occ: u64)
    requires
        0 <= a < 64,
        0 <= b < 64,
    ensures
        attacks(kind, side, a, b, occ) <==> attacks(kind, reverse_side(kind, side), b, a, occ),
{
    assert(reaches(kind, side, a, b) == reaches(kind, reverse_side(kind, side), b, a));
    if is_slider(kind) && reaches(kind, side, a, b) {
        assert(on_line(a, b) && on_line(b, a));
        if is_clear(a, b, occ) {
            lemma_clear_symmetric(a, b, occ);
        }
        if is_clear(b, a, occ) {
            lemma_clear_symmetric(b, a, occ);
        }
    }
}

/// Two sets of squares of which each is the other one seen from the far side of the board.
pub open spec fn flipped(occ: u64, flip: u64) -> bool {
    forall|s: int|
        0 <= s < 64 ==> (#[trigger] bits::member(occ, s) <==> bits::member(
            flip,
            types::flip_ranks(s),
        ))
}

/// Turning the board over and exchanging the colours keeps the attacks.
pub proof fn lemma_attacks_flipped(
    kind: PieceType,
    side: Color,
    a: int,
    b: int,
    occ: u64,
    flip: u64,
)
    requires
        0 <= a < 64,
        0 <= b < 64,
        flipped(occ, flip),
    ensures
        attacks(kind, side, a, b, occ) <==> attacks(
            kind,
            side.opposite(),
            types::flip_ranks(a),
            types::flip_ranks(b),
            flip,
        ),
{
    let (fa, fb) = (types::flip_ranks(a), types::flip_ranks(b));
    assert(rank_step(fa, fb) == -rank_step(a, b));
    assert(file_step(fa, fb) == file_step(a, b));
    assert(reaches(kind, side, a, b) == reaches(kind, side.opposite(), fa, fb));
    if is_slider(kind) && reaches(kind, side, a, b) {
        lemma_line(a, b);
        lemma_line(fa, fb);
        let n = distance(a, b);
        assert forall|k: int| 1 <= k < n implies bits::member(
            occ,
            #[trigger] ray(a, direction(a, b), k),
        ) == bits::member(flip, ray(fa, direction(fa, fb), k)) by {
            lemma_ray_inside(a, b, k);
            lemma_ray_inside(fa, fb, k);
            lemma_unit_multiple(k, sign(rank_step(a, b)));
            lemma_unit_multiple(k, sign(rank_step(fa, fb)));
            assert(types::flip_ranks(ray(a, direction(a, b), k)) == ray(
                fa,
                direction(fa, fb),
                k,
            ));
        }
        assert forall|k: int| 1 <= k < n implies bits::member(
            flip,
            #[trigger] ray(fa, direction(fa, fb), k),
        ) == bits::member(occ, ray(a, direction(a, b), k)) by {
            assert(bits::member(occ, ray(a, direction(a, b), k)) == bits::member(
                flip,
                ray(fa, direction(fa, fb), k),
            ));
        }
    }
}

/// The squares between two squares of a line are on the board, and their files and ranks advance
/// one step at a time.
pub proof fn lemma_ray_inside(from: int, to: int, k: int)
    requires
        0 <= from < 64,
        0 <= to < 64,
        on_line(from, to),
        0 <= k <= distance(from, to),
    ensures
        0 <= ray(from, direction(from, to), k) < 64,
        types::file_of(ray(from, direction(from, to), k)) == types::file_of(from) + k * sign(
            file_step(from, to),
        ),
        types::rank_of(ray(from, direction(from, to), k)) == types::rank_of(from) + k * sign(
            rank_step(from, to),
        ),
{
    let (sf, sr) = (sign(file_step(from, to)), sign(rank_step(from, to)));
    let d = direction(from, to);
    assert(k * d == 8 * (k * sr) + k * sf) by (nonlinear_arith)
        requires
            d == 8 * sr + sf,
    ;
    lemma_unit_multiple(k, sf);
    lemma_unit_multiple(k, sr);
}

/// Two sets of squares of which each is the other one in a mirror between the d-file and the
/// e-file.
pub open spec fn mirrored(occ: u64, image: u64) -> bool {
    forall|s: int|
        0 <= s < 64 ==> (#[trigger] bits::member(occ, s) <==> bits::member(
            image,
            types::flip_files(s),
        ))
}

/// The files and ranks of a mirror image.
pub proof fn lemma_mirror(s: int)
    requires
        0 <= s < 64,
    ensures
        0 <= types::flip_files(s) < 64,
        types::file_of(types::flip_files(s)) == 7 - types::file_of(s),
        types::rank_of(types::flip_files(s)) == types::rank_of(s),
        types::flip_files(types::flip_files(s)) == s,
{
}

/// The way between the mirror images of two squares.
proof fn lemma_mirror_steps(a: int, b: int)
    requires
        0 <= a < 64,
        0 <= b < 64,
    ensures
        file_step(types::flip_files(a), types::flip_files(b)) == -file_step(a, b),
        rank_step(types::flip_files(a), types::flip_files(b)) == rank_step(a, b),
        distance(types::flip_files(a), types::flip_files(b)) == distance(a, b),
        on_line(types::flip_files(a), types::flip_files(b)) == on_line(a, b),
{
    lemma_mirror(a);
    lemma_mirror(b);
    lemma_reaches_by(PieceType::Queen, Color::White, file_step(a, b), rank_step(a, b));
}

/// A square is given by its file and its rank.
proof fn lemma_coordinates(s: int, t: int)
    requires
        types::file_of(s) == types::file_of(t),
        types::rank_of(s) == types::rank_of(t),
    ensures
        s == t,
{
}

/// A square between two squares of a line and its mirror image.
proof fn lemma_ray_mirrored(a: int, b: int, k: int)
    requires
        0 <= a < 64,
        0 <= b < 64,
        on_line(a, b),
        0 <= k <= distance(a, b),
    ensures
        0 <= ray(a, direction(a, b), k) < 64,
        types::flip_files(ray(a, direction(a, b), k)) == ray(
            types::flip_files(a),
            direction(types::flip_files(a), types::flip_files(b)),
            k,
        ),
{
    let (fa, fb) = (types::flip_files(a), types::flip_files(b));
    lemma_mirror(a);
    lemma_mirror(b);
    lemma_mirror_steps(a, b);
    lemma_ray_inside(a, b, k);
    lemma_ray_inside(fa, fb, k);
    lemma_unit_multiple(k, sign(file_step(a, b)));
    lemma_unit_multiple(k, sign(file_step(fa, fb)));
    let (s, t) = (ray(a, direction(a, b), k), ray(fa, direction(fa, fb), k));
    lemma_mirror(s);
    lemma_coordinates(types::flip_files(s), t);
}

/// Mirroring the files keeps empty paths.
proof fn lemma_clear_mirrored(a: int, b: int, occ: u64, image: u64)
    requires
        0 <= a < 64,
        0 <= b < 64,
        on_line(a, b),
        mirrored(occ, image),
    ensures
        is_clear(a, b, occ) <==> is_clear(types::flip_files(a), types::flip_files(b), image),
{
    let (fa, fb) = (types::flip_files(a), types::flip_files(b));
    let (d, e) = (direction(a, b), direction(fa, fb));
    lemma_mirror_steps(a, b);
    assert forall|k: int| 1 <= k < distance(a, b) implies bits::member(
        occ,
        #[trigger] ray(a, d, k),
    ) == bits::member(image, ray(fa, e, k)) by {
        lemma_ray_mirrored(a, b, k);
    }
    assert forall|k: int| 1 <= k < distance(a, b) implies bits::member(
        image,
        #[trigger] ray(fa, e, k),
    ) == bits::member(occ, ray(a, d, k)) by {
        assert(bits::member(occ, ray(a, d, k)) == bits::member(image, ray(fa, e, k)));
    }
}

/// Mirroring the files keeps the attacks.
pub proof fn lemma_attacks_mirrored(
    kind: PieceType,
    side: Color,
    a: int,
    b: int,
    occ: u64,
    image: u64,
)
    requires
        0 <= a < 64,
        0 <= b < 64,
        mirrored(occ, image),
    ensures
        attacks(kind, side, a, b, occ) <==> attacks(
            kind,
            side,
            types::flip_files(a),
            types::flip_files(b),
            image,
        ),
{
    lemma_mirror(b);
    lemma_mirror_steps(a, b);
    lemma_reaches_by(kind, side, file_step(a, b), rank_step(a, b));
    if is_slider(kind) && reaches(kind, side, a, b) {
        lemma_clear_mirrored(a, b, occ, image);
    }
}

} // verus!
