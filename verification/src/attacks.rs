//! Attack sets, generated by shifting whole words and looked up in tables.
use vstd::prelude::*;

use crate::bits;
use crate::geometry;
use crate::types;
use crate::types::{Color, PieceType};

verus! {

/// The squares of the a-file.
pub const A_FILE: u64 = 0x0101010101010101;

/// The squares of the h-file.
pub const H_FILE: u64 = 0x8080808080808080;

/// Whether the step `dir` from square `s` stays on the board. A step that ends one file to the
/// right may not start on the h-file, one that ends one file to the left not on the a-file.
pub open spec fn step_ok(s: int, dir: int) -> bool {
    &&& 0 <= s < 64
    &&& 0 <= s + dir < 64
    &&& dir % 8 == 1 ==> types::file_of(s) != 7
    &&& dir % 8 == 7 ==> types::file_of(s) != 0
}

/// Whether `k` steps of the direction `dir` from square `s` stay on the board.
pub open spec fn walk_ok(s: int, dir: int, k: nat) -> bool
    decreases k,
{
    k == 0 || (walk_ok(s, dir, (k - 1) as nat) && step_ok(geometry::ray(s, dir, k - 1), dir))
}

/// Whether a piece that slides from `s` in the direction `dir` makes `k` steps: they stay on the
/// board, and no square before the last one is occupied.
pub open spec fn makes_steps(s: int, occ: u64, dir: int, k: int) -> bool {
    &&& walk_ok(s, dir, k as nat)
    &&& forall|j: int| 1 <= j < k ==> !bits::member(occ, #[trigger] geometry::ray(s, dir, j))
}

/// Whether a piece that slides from `s` in the direction `dir` gets to `t` in at most `n` steps.
pub open spec fn slides_within(s: int, occ: u64, dir: int, t: int, n: int) -> bool {
    exists|k: int|
        1 <= k <= n && #[trigger] makes_steps(s, occ, dir, k) && t == geometry::ray(s, dir, k)
}

/// Whether a piece that slides from `s` in the direction `dir` gets to `t`.
pub open spec fn slides(s: int, occ: u64, dir: int, t: int) -> bool {
    slides_within(s, occ, dir, t, 9)
}

/// Whether a piece that slides from `s` in one of the directions gets to `t`.
pub open spec fn slides_any(s: int, occ: u64, dirs: Seq<i8>, t: int) -> bool {
    exists|i: int| 0 <= i < dirs.len() && slides(s, occ, #[trigger] dirs[i] as int, t)
}

/// Whether one step of one of the directions leads from a square of `bb` to `t`.
pub open spec fn steps_from(bb: u64, dirs: Seq<i8>, t: int) -> bool {
    exists|i: int|
        0 <= i < dirs.len() && bits::member(bb, t - #[trigger] dirs[i]) && step_ok(
            t - dirs[i],
            dirs[i] as int,
        )
}

proof fn lemma_edge_files(s: u64)
    by (bit_vector)
    requires
        s < 64,
    ensures
        (A_FILE >> s) & 1 == 1 <==> s % 8 == 0,
        (H_FILE >> s) & 1 == 1 <==> s % 8 == 7,
{
}

/// Moves every square of a set by `dir`; those that would leave the board on the left or on the
/// right disappear.
pub fn shift_dir(bb: u64, dir: i8) -> (r: u64)
    requires
        -64 < dir < 64,
    ensures
        forall|t: int|
            0 <= t < 64 ==> (#[trigger] bits::member(r, t) <==> bits::member(bb, t - dir)
                && step_ok(t - dir, dir as int)),
{
    let ghost all = bb;
    let mut bb: u64 = bb;
    let file_offset: i8 = dir & 0x7;
    assert(file_offset == dir % 8) by (bit_vector)
        requires
            file_offset == dir & 0x7,
    ;
    if file_offset == 1 {
        bb = bb & !H_FILE;
    } else if file_offset == 7 {
        bb = bb & !A_FILE;
    }
    assert forall|s: int| #[trigger] bits::member(bb, s) <==> bits::member(all, s) && !(dir % 8 == 1
        && types::file_of(s) == 7) && !(dir % 8 == 7 && types::file_of(s) == 0) by {
        if 0 <= s < 64 {
            bits::lemma_has_ops(all, !H_FILE, s);
            bits::lemma_has_ops(H_FILE, 0, s);
            bits::lemma_has_ops(all, !A_FILE, s);
            bits::lemma_has_ops(A_FILE, 0, s);
            lemma_edge_files(s as u64);
        }
    }
    let r: u64 = if dir < 0 {
        bb >> ((-dir) as u64)
    } else {
        bb << (dir as u64)
    };
    assert forall|t: int| 0 <= t < 64 implies (#[trigger] bits::member(r, t) <==> bits::member(
        all,
        t - dir,
    ) && step_ok(t - dir, dir as int)) by {
        if dir < 0 {
            bits::lemma_has_shift(bb, (-dir) as u64, t);
        } else {
            bits::lemma_has_shift(bb, dir as u64, t);
        }
        assert(bits::member(r, t) <==> bits::member(bb, t - dir));
    }
    r
}

/// The squares that one step of one of the directions leads to.
pub fn shift_dirs(bb: u64, dirs: &[i8]) -> (r: u64)
    requires
        forall|i: int| 0 <= i < dirs@.len() ==> -64 < #[trigger] dirs@[i] < 64,
    ensures
        forall|t: int| 0 <= t < 64 ==> (#[trigger] bits::member(r, t) <==> steps_from(bb, dirs@, t)),
{
    let mut t: u64 = 0;
    let mut i: usize = 0;
    proof {
        assert forall|u: int| 0 <= u < 64 implies !#[trigger] bits::member(0, u) by {
            bits::lemma_has_ops(0, 0, u);
        }
    }
    while i < dirs.len()
        invariant
            i <= dirs@.len(),
            forall|i: int| 0 <= i < dirs@.len() ==> -64 < #[trigger] dirs@[i] < 64,
            forall|u: int|
                0 <= u < 64 ==> (#[trigger] bits::member(t, u) <==> steps_from(
                    bb,
                    dirs@.take(i as int),
                    u,
                )),
        decreases dirs@.len() - i,
    {
        let ghost before = t;
        let moved: u64 = shift_dir(bb, dirs[i]);
        t = t | moved;
        proof {
            let (small, large) = (dirs@.take(i as int), dirs@.take(i + 1));
            assert(large == small.push(dirs@[i as int]));
            assert forall|u: int| 0 <= u < 64 implies (#[trigger] bits::member(t, u) <==> steps_from(
                bb,
                large,
                u,
            )) by {
                bits::lemma_has_ops(before, moved, u);
                if steps_from(bb, small, u) {
                    let j = choose|j: int|
                        0 <= j < small.len() && bits::member(bb, u - #[trigger] small[j])
                            && step_ok(u - small[j], small[j] as int);
                    assert(large[j] == small[j]);
                }
                if bits::member(moved, u) {
                    assert(large[i as int] == dirs@[i as int]);
                }
                if steps_from(bb, large, u) {
                    let j = choose|j: int|
                        0 <= j < large.len() && bits::member(bb, u - #[trigger] large[j])
                            && step_ok(u - large[j], large[j] as int);
                    if j < i {
                        assert(small[j] == large[j]);
                    }
                }
            }
        }
        i = i + 1;
    }
    assert(dirs@.take(i as int) == dirs@);
    t
}

/// The squares that a piece which slides from `sq` in the direction `dir` gets to, up to and
/// including the first occupied one; never more than nine steps.
pub fn generate_slide(sq: u8, occ: u64, dir: i8) -> (r: u64)
    requires
        sq < 64,
        -64 < dir < 64,
    ensures
        forall|t: int|
            0 <= t < 64 ==> (#[trigger] bits::member(r, t) <==> slides(
                sq as int,
                occ,
                dir as int,
                t,
            )),
{
    let ghost (s, d) = (sq as int, dir as int);
    let mut t: u64 = shift_dir(1u64 << (sq as u64), dir);
    proof {
        assert forall|u: int| 0 <= u < 64 implies (#[trigger] bits::member(t, u) <==> slides_within(
            s,
            occ,
            d,
            u,
            1,
        )) by {
            if 0 <= u - d < 64 {
                bits::lemma_has_single(sq as u64, u - d);
            }
            assert(walk_ok(s, d, 0));
            assert(geometry::ray(s, d, 0) == s && geometry::ray(s, d, 1) == s + d);
            assert(makes_steps(s, occ, d, 1) <==> step_ok(s, d));
        }
    }
    let mut i: u8 = 0;
    while i < 8 && t & occ == 0
        invariant
            sq < 64,
            -64 < dir < 64,
            s == sq,
            d == dir,
            i <= 8,
            forall|u: int|
                0 <= u < 64 ==> (#[trigger] bits::member(t, u) <==> slides_within(
                    s,
                    occ,
                    d,
                    u,
                    i + 1,
                )),
        decreases 8 - i,
    {
        let ghost before = t;
        let moved: u64 = shift_dir(t, dir);
        t = t | moved;
        proof {
            assert forall|u: int| 0 <= u < 64 implies (#[trigger] bits::member(t, u)
                <==> slides_within(s, occ, d, u, i + 2)) by {
                bits::lemma_has_ops(before, moved, u);
                lemma_one_more_step(s, occ, d, u, i + 1, before);
            }
        }
        i = i + 1;
    }
    proof {
        assert forall|u: int| 0 <= u < 64 implies (#[trigger] bits::member(t, u) <==> slides(
            s,
            occ,
            d,
            u,
        )) by {
            if i < 8 {
                lemma_stopped(s, occ, d, u, i + 1, t);
            }
        }
    }
    t
}

/// A walk that stays on the board has a square for each of its steps.
proof fn lemma_walk_prefix(s: int, dir: int, j: nat, k: nat)
    requires
        walk_ok(s, dir, k),
        j <= k,
        0 <= s < 64,
    ensures
        walk_ok(s, dir, j),
        0 <= geometry::ray(s, dir, j as int) < 64,
    decreases k,
{
    if j < k {
        lemma_walk_prefix(s, dir, j, (k - 1) as nat);
    } else if k == 0 {
        assert(geometry::ray(s, dir, 0) == s);
    } else {
        assert(geometry::ray(s, dir, k as int) == geometry::ray(s, dir, k - 1) + dir)
            by (nonlinear_arith)
            requires
                geometry::ray(s, dir, k as int) == s + k * dir,
                geometry::ray(s, dir, k - 1) == s + (k - 1) * dir,
        ;
    }
}

/// While no square of the set is occupied, one more shift adds exactly the squares that are one
/// more step away.
proof fn lemma_one_more_step(s: int, occ: u64, d: int, u: int, n: int, t: u64)
    requires
        0 <= s < 64,
        0 <= u < 64,
        n >= 1,
        t & occ == 0,
        forall|v: int|
            0 <= v < 64 ==> (#[trigger] bits::member(t, v) <==> slides_within(s, occ, d, v, n)),
    ensures
        slides_within(s, occ, d, u, n + 1) <==> bits::member(t, u) || (bits::member(t, u - d)
            && step_ok(u - d, d)),
{
    if bits::member(t, u) {
        let k = choose|k: int|
            1 <= k <= n && #[trigger] makes_steps(s, occ, d, k) && u == geometry::ray(s, d, k);
        assert(1 <= k <= n + 1 && makes_steps(s, occ, d, k));
    }
    if bits::member(t, u - d) && step_ok(u - d, d) {
        let k = choose|k: int|
            1 <= k <= n && #[trigger] makes_steps(s, occ, d, k) && u - d == geometry::ray(s, d, k);
        bits::lemma_has_ops(t, occ, u - d);
        assert(geometry::ray(s, d, k + 1) == geometry::ray(s, d, k) + d) by (nonlinear_arith);
        assert(makes_steps(s, occ, d, k + 1)) by {
            assert forall|j: int| 1 <= j < k + 1 implies !bits::member(
                occ,
                #[trigger] geometry::ray(s, d, j),
            ) by {
                if j == k {
                    assert(geometry::ray(s, d, k) == u - d);
                }
            }
        }
    }
    if slides_within(s, occ, d, u, n + 1) {
        let k = choose|k: int|
            1 <= k <= n + 1 && #[trigger] makes_steps(s, occ, d, k) && u == geometry::ray(s, d, k);
        if k == n + 1 {
            assert(geometry::ray(s, d, k) == geometry::ray(s, d, k - 1) + d) by (nonlinear_arith);
            assert(makes_steps(s, occ, d, k - 1));
            assert(u - d == geometry::ray(s, d, k - 1));
            lemma_walk_prefix(s, d, (k - 1) as nat, k as nat);
            assert(slides_within(s, occ, d, u - d, n));
        } else {
            assert(1 <= k <= n && makes_steps(s, occ, d, k));
        }
    }
}

/// Once a square of the set is occupied, no more steps are made.
proof fn lemma_stopped(s: int, occ: u64, d: int, u: int, n: int, t: u64)
    requires
        0 <= s < 64,
        0 <= u < 64,
        1 <= n <= 9,
        t & occ != 0,
        forall|v: int|
            0 <= v < 64 ==> (#[trigger] bits::member(t, v) <==> slides_within(s, occ, d, v, n)),
    ensures
        slides(s, occ, d, u) <==> slides_within(s, occ, d, u, n),
{
    bits::lemma_lowest(t & occ);
    let b = choose|b: int| bits::member(t & occ, b);
    bits::lemma_has_ops(t, occ, b);
    let kb = choose|k: int|
        1 <= k <= n && #[trigger] makes_steps(s, occ, d, k) && b == geometry::ray(s, d, k);
    if slides(s, occ, d, u) {
        let k = choose|k: int|
            1 <= k <= 9 && #[trigger] makes_steps(s, occ, d, k) && u == geometry::ray(s, d, k);
        if k > kb {
            assert(!bits::member(occ, geometry::ray(s, d, kb)));
        }
        assert(1 <= k <= n && makes_steps(s, occ, d, k));
    }
    if slides_within(s, occ, d, u, n) {
        let k = choose|k: int|
            1 <= k <= n && #[trigger] makes_steps(s, occ, d, k) && u == geometry::ray(s, d, k);
        assert(1 <= k <= 9 && makes_steps(s, occ, d, k));
    }
}

/// Whether `dir` is the number of one of the eight directions on the board.
pub open spec fn is_direction(dir: int) -> bool {
    dir == 1 || dir == -1 || dir == 7 || dir == -7 || dir == 8 || dir == -8 || dir == 9 || dir == -9
}

/// A step in one of the eight directions stays on the board exactly when it leads to a file and a
/// rank of the board.
proof fn lemma_step_coordinates(f: int, r: int, df: int, dr: int)
    requires
        0 <= f < 8,
        0 <= r < 8,
        -1 <= df <= 1,
        -1 <= dr <= 1,
        df != 0 || dr != 0,
    ensures
        step_ok(8 * r + f, 8 * dr + df) <==> 0 <= f + df < 8 && 0 <= r + dr < 8,
{
    assert(types::file_of(8 * r + f) == f);
}

/// A walk stays on the board exactly when its last square is on a file and a rank of the board.
#[verifier::rlimit(40)]
proof fn lemma_walk_coordinates(s: int, df: int, dr: int, k: nat)
    requires
        0 <= s < 64,
        -1 <= df <= 1,
        -1 <= dr <= 1,
        df != 0 || dr != 0,
    ensures
        walk_ok(s, 8 * dr + df, k) <==> 0 <= types::file_of(s) + k * df < 8 && 0 <= types::rank_of(
            s,
        ) + k * dr < 8,
        geometry::ray(s, 8 * dr + df, k as int) == 8 * (types::rank_of(s) + k * dr)
            + types::file_of(s) + k * df,
    decreases k,
{
    let (f, r, d) = (types::file_of(s), types::rank_of(s), 8 * dr + df);
    assert(k * d == 8 * (k * dr) + k * df) by (nonlinear_arith)
        requires
            d == 8 * dr + df,
    ;
    if k == 0 {
        geometry::lemma_unit_multiple(0, df);
        geometry::lemma_unit_multiple(0, dr);
    } else {
        let j = (k - 1) as nat;
        lemma_walk_coordinates(s, df, dr, j);
        assert(k * df == j * df + df && k * dr == j * dr + dr) by (nonlinear_arith)
            requires
                j == k - 1,
        ;
        geometry::lemma_unit_multiple(j as int, df);
        geometry::lemma_unit_multiple(j as int, dr);
        let q = geometry::ray(s, d, j as int);
        assert(q == 8 * (r + j * dr) + f + j * df);
        if walk_ok(s, d, j) {
            lemma_step_coordinates(f + j * df, r + j * dr, df, dr);
        }
    }
}

/// What is reached by sliding lies on a line with an empty path.
proof fn lemma_slide_is_line(s: int, occ: u64, df: int, dr: int, t: int)
    requires
        0 <= s < 64,
        0 <= t < 64,
        -1 <= df <= 1,
        -1 <= dr <= 1,
        df != 0 || dr != 0,
        slides(s, occ, 8 * dr + df, t),
    ensures
        geometry::on_line(s, t),
        geometry::direction(s, t) == 8 * dr + df,
        geometry::is_clear(s, t, occ),
{
    let dir = 8 * dr + df;
    let k = choose|k: int|
        1 <= k <= 9 && #[trigger] makes_steps(s, occ, dir, k) && t == geometry::ray(s, dir, k);
    lemma_walk_coordinates(s, df, dr, k as nat);
    geometry::lemma_unit_multiple(k, df);
    geometry::lemma_unit_multiple(k, dr);
    let (f, r) = (types::file_of(s) + k * df, types::rank_of(s) + k * dr);
    assert(t == 8 * r + f && 0 <= f < 8 && 0 <= r < 8);
    assert(types::file_of(t) == f && types::rank_of(t) == r);
    assert(geometry::sign(k * df) == df && geometry::sign(k * dr) == dr);
    assert(geometry::distance(s, t) == k);
}

/// What lies on a line with an empty path is reached by sliding.
proof fn lemma_line_is_slide(s: int, occ: u64, t: int)
    requires
        0 <= s < 64,
        0 <= t < 64,
        geometry::on_line(s, t),
        geometry::is_clear(s, t, occ),
    ensures
        slides(s, occ, geometry::direction(s, t), t),
{
    let (df, dr) = (
        geometry::sign(geometry::file_step(s, t)),
        geometry::sign(geometry::rank_step(s, t)),
    );
    let k = geometry::distance(s, t);
    geometry::lemma_line(s, t);
    geometry::lemma_ray_inside(s, t, k);
    lemma_walk_coordinates(s, df, dr, k as nat);
    assert(makes_steps(s, occ, geometry::direction(s, t), k));
}

/// Sliding in one of the eight directions: the squares that lie in that direction, as far as the
/// path to them is empty.
pub proof fn lemma_slides(s: int, occ: u64, dir: int, t: int)
    requires
        0 <= s < 64,
        0 <= t < 64,
        is_direction(dir),
    ensures
        slides(s, occ, dir, t) <==> geometry::on_line(s, t) && geometry::direction(s, t) == dir
            && geometry::is_clear(s, t, occ),
{
    let df: int = if dir == 1 || dir == -7 || dir == 9 {
        1
    } else if dir == -1 || dir == 7 || dir == -9 {
        -1
    } else {
        0
    };
    let dr: int = if dir >= 7 {
        1
    } else if dir <= -7 {
        -1
    } else {
        0
    };
    assert(dir == 8 * dr + df);
    if slides(s, occ, dir, t) {
        lemma_slide_is_line(s, occ, df, dr, t);
    }
    if geometry::on_line(s, t) && geometry::is_clear(s, t, occ) {
        lemma_line_is_slide(s, occ, t);
    }
}

/// The squares that a piece which slides from `sq` in any of the directions gets to.
pub fn sliding_attacks(sq: u8, occ: u64, dirs: &[i8]) -> (r: u64)
    requires
        sq < 64,
        forall|i: int| 0 <= i < dirs@.len() ==> -64 < #[trigger] dirs@[i] < 64,
    ensures
        forall|t: int|
            0 <= t < 64 ==> (#[trigger] bits::member(r, t) <==> slides_any(
                sq as int,
                occ,
                dirs@,
                t,
            )),
{
    let mut o: u64 = 0;
    let mut i: usize = 0;
    proof {
        assert forall|u: int| 0 <= u < 64 implies !#[trigger] bits::member(0, u) by {
            bits::lemma_has_ops(0, 0, u);
        }
    }
    while i < dirs.len()
        invariant
            sq < 64,
            i <= dirs@.len(),
            forall|i: int| 0 <= i < dirs@.len() ==> -64 < #[trigger] dirs@[i] < 64,
            forall|u: int|
                0 <= u < 64 ==> (#[trigger] bits::member(o, u) <==> slides_any(
                    sq as int,
                    occ,
                    dirs@.take(i as int),
                    u,
                )),
        decreases dirs@.len() - i,
    {
        let ghost before = o;
        let slide: u64 = generate_slide(sq, occ, dirs[i]);
        o = o | slide;
        proof {
            let (small, large) = (dirs@.take(i as int), dirs@.take(i + 1));
            assert forall|u: int| 0 <= u < 64 implies (#[trigger] bits::member(o, u) <==> slides_any(
                sq as int,
                occ,
                large,
                u,
            )) by {
                bits::lemma_has_ops(before, slide, u);
                if slides_any(sq as int, occ, small, u) {
                    let j = choose|j: int|
                        0 <= j < small.len() && slides(sq as int, occ, #[trigger] small[j] as int, u);
                    assert(large[j] == small[j]);
                }
                assert(large[i as int] == dirs@[i as int]);
                if slides_any(sq as int, occ, large, u) {
                    let j = choose|j: int|
                        0 <= j < large.len() && slides(sq as int, occ, #[trigger] large[j] as int, u);
                    if j < i {
                        assert(small[j] == large[j]);
                    }
                }
            }
        }
        i = i + 1;
    }
    assert(dirs@.take(i as int) == dirs@);
    o
}

/// The squares that one step of one of the directions leads to from the single square `sq`.
proof fn lemma_steps_from_single(sq: u64, dirs: Seq<i8>, t: int)
    requires
        sq < 64,
        0 <= t < 64,
    ensures
        steps_from(1u64 << sq, dirs, t) <==> exists|i: int|
            0 <= i < dirs.len() && t == sq + #[trigger] dirs[i] && step_ok(sq as int, dirs[i] as int),
{
    assert forall|i: int| 0 <= i < dirs.len() implies (bits::member(
        1u64 << sq,
        t - #[trigger] dirs[i],
    ) <==> t - dirs[i] == sq) by {
        if 0 <= t - dirs[i] < 64 {
            bits::lemma_has_single(sq, t - dirs[i]);
        }
    }
}

/// The squares that a pawn on `sq` attacks.
pub fn pawn_attacks_gen(sq: u8, white: bool) -> (r: u64)
    requires
        sq < 64,
    ensures
        forall|t: int|
            0 <= t < 64 ==> (#[trigger] bits::member(r, t) <==> geometry::reaches(
                PieceType::Pawn,
                if white {
                    Color::White
                } else {
                    Color::Black
                },
                sq as int,
                t,
            )),
{
    if white {
        let dirs: [i8; 2] = [7, 9];
        let r: u64 = shift_dirs(1u64 << (sq as u64), &dirs);
        proof {
            assert forall|t: int| 0 <= t < 64 implies (#[trigger] bits::member(r, t)
                <==> geometry::reaches(PieceType::Pawn, Color::White, sq as int, t)) by {
                lemma_steps_from_single(sq as u64, dirs@, t);
                assert(dirs@[0] == 7 && dirs@[1] == 9);
            }
        }
        r
    } else {
        let dirs: [i8; 2] = [-7, -9];
        let r: u64 = shift_dirs(1u64 << (sq as u64), &dirs);
        proof {
            assert forall|t: int| 0 <= t < 64 implies (#[trigger] bits::member(r, t)
                <==> geometry::reaches(PieceType::Pawn, Color::Black, sq as int, t)) by {
                lemma_steps_from_single(sq as u64, dirs@, t);
                assert(dirs@[0] == -7 && dirs@[1] == -9);
            }
        }
        r
    }
}

/// The squares that a king on `sq` attacks.
pub fn king_attacks_gen(sq: u8) -> (r: u64)
    requires
        sq < 64,
    ensures
        forall|t: int|
            0 <= t < 64 ==> (#[trigger] bits::member(r, t) <==> geometry::reaches(
                PieceType::King,
                Color::White,
                sq as int,
                t,
            )),
{
    let dirs: [i8; 8] = [7, 8, 9, 1, -7, -8, -9, -1];
    let r: u64 = shift_dirs(1u64 << (sq as u64), &dirs);
    proof {
        assert forall|t: int| 0 <= t < 64 implies (#[trigger] bits::member(r, t)
            <==> geometry::reaches(PieceType::King, Color::White, sq as int, t)) by {
            lemma_steps_from_single(sq as u64, dirs@, t);
            assert(dirs@[0] == 7 && dirs@[1] == 8 && dirs@[2] == 9 && dirs@[3] == 1);
            assert(dirs@[4] == -7 && dirs@[5] == -8 && dirs@[6] == -9 && dirs@[7] == -1);
        }
    }
    r
}

/// Whether `m` is a neighbour of `s` on a diagonal.
spec fn is_diagonal_step(s: int, m: int) -> bool {
    0 <= m < 64 && geometry::abs(geometry::file_step(s, m)) == 1 && geometry::abs(
        geometry::rank_step(s, m),
    ) == 1
}

proof fn lemma_diagonal_steps(s: int, m: int)
    requires
        0 <= s < 64,
        0 <= m < 64,
    ensures
        is_diagonal_step(s, m) <==> {
            ||| m == s + 7 && step_ok(s, 7)
            ||| m == s + 9 && step_ok(s, 9)
            ||| m == s - 7 && step_ok(s, -7)
            ||| m == s - 9 && step_ok(s, -9)
        },
{
}

/// A straight step changes either the rank or the file by one.
proof fn lemma_straight_steps(t: int)
    requires
        0 <= t < 64,
    ensures
        step_ok(t - 8, 8) <==> types::rank_of(t) > 0,
        types::file_of(t - 8) == types::file_of(t) && types::rank_of(t - 8) == types::rank_of(t) - 1,
        step_ok(t + 8, -8) <==> types::rank_of(t) < 7,
        types::file_of(t + 8) == types::file_of(t) && types::rank_of(t + 8) == types::rank_of(t) + 1,
        step_ok(t - 1, 1) <==> types::file_of(t) > 0,
        step_ok(t - 1, 1) ==> types::file_of(t - 1) == types::file_of(t) - 1 && types::rank_of(
            t - 1,
        ) == types::rank_of(t),
        step_ok(t + 1, -1) <==> types::file_of(t) < 7,
        step_ok(t + 1, -1) ==> types::file_of(t + 1) == types::file_of(t) + 1 && types::rank_of(
            t + 1,
        ) == types::rank_of(t),
{
}

/// A knight's move is a diagonal and a straight step that do not lead to a neighbouring square.
proof fn lemma_knight_steps(s: int, t: int)
    requires
        0 <= s < 64,
        0 <= t < 64,
    ensures
        geometry::reaches(PieceType::Knight, Color::White, s, t) <==> !geometry::reaches(
            PieceType::King,
            Color::White,
            s,
            t,
        ) && {
            ||| is_diagonal_step(s, t - 8) && step_ok(t - 8, 8)
            ||| is_diagonal_step(s, t - 1) && step_ok(t - 1, 1)
            ||| is_diagonal_step(s, t + 8) && step_ok(t + 8, -8)
            ||| is_diagonal_step(s, t + 1) && step_ok(t + 1, -1)
        },
{
    lemma_straight_steps(t);
    let (df, dr) = (geometry::file_step(s, t), geometry::rank_step(s, t));
    let (up, down) = (
        is_diagonal_step(s, t - 8) && step_ok(t - 8, 8),
        is_diagonal_step(s, t + 8) && step_ok(t + 8, -8),
    );
    let (right, left) = (
        is_diagonal_step(s, t - 1) && step_ok(t - 1, 1),
        is_diagonal_step(s, t + 1) && step_ok(t + 1, -1),
    );
    assert(up <==> types::rank_of(t) > 0 && geometry::abs(df) == 1 && geometry::abs(dr - 1) == 1);
    assert(down <==> types::rank_of(t) < 7 && geometry::abs(df) == 1 && geometry::abs(dr + 1) == 1);
    assert(right <==> types::file_of(t) > 0 && geometry::abs(dr) == 1 && geometry::abs(df - 1) == 1);
    assert(left <==> types::file_of(t) < 7 && geometry::abs(dr) == 1 && geometry::abs(df + 1) == 1);
}

/// The squares that a knight on `sq` attacks: one diagonal and one straight step away, without the
/// neighbouring squares.
pub fn knight_attacks_gen(sq: u8) -> (r: u64)
    requires
        sq < 64,
    ensures
        forall|t: int|
            0 <= t < 64 ==> (#[trigger] bits::member(r, t) <==> geometry::reaches(
                PieceType::Knight,
                Color::White,
                sq as int,
                t,
            )),
{
    let diagonal: [i8; 4] = [7, 9, -7, -9];
    let straight: [i8; 4] = [8, 1, -8, -1];
    let near: u64 = shift_dirs(1u64 << (sq as u64), &diagonal);
    let far: u64 = shift_dirs(near, &straight);
    let king: u64 = king_attacks_gen(sq);
    let r: u64 = far & !king;
    proof {
        assert(diagonal@[0] == 7 && diagonal@[1] == 9 && diagonal@[2] == -7 && diagonal@[3] == -9);
        assert(straight@[0] == 8 && straight@[1] == 1 && straight@[2] == -8 && straight@[3] == -1);
        let s = sq as int;
        assert forall|m: int| #[trigger] bits::member(near, m) <==> is_diagonal_step(s, m) by {
            if 0 <= m < 64 {
                lemma_steps_from_single(sq as u64, diagonal@, m);
                lemma_diagonal_steps(s, m);
            }
        }
        assert forall|t: int| 0 <= t < 64 implies (#[trigger] bits::member(r, t)
            <==> geometry::reaches(PieceType::Knight, Color::White, s, t)) by {
            bits::lemma_has_ops(far, !king, t);
            bits::lemma_has_ops(king, 0, t);
            assert(bits::member(far, t) <==> {
                ||| is_diagonal_step(s, t - 8) && step_ok(t - 8, 8)
                ||| is_diagonal_step(s, t - 1) && step_ok(t - 1, 1)
                ||| is_diagonal_step(s, t + 8) && step_ok(t + 8, -8)
                ||| is_diagonal_step(s, t + 1) && step_ok(t + 1, -1)
            });
            lemma_knight_steps(s, t);
        }
    }
    r
}

} // verus!
