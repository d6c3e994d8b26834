//! What holds of a position and its image in a mirror between the d-file and the e-file.
use vstd::prelude::*;

use crate::bits;
use crate::board;
use crate::board::Position;
use crate::features;
use crate::geometry;
use crate::sums;
use crate::threats;
use crate::turned;
use crate::types;
use crate::types::Color;

verus! {

/// Whether `q` is the position `p` with the files reversed, as far as the player of colour `pov` can
/// tell: the pieces and the player's own king have changed sides.
pub open spec fn is_mirror_image(p: Position, q: Position, pov: Color) -> bool {
    &&& geometry::mirrored(p.occ, q.occ)
    &&& forall|s: int|
        0 <= s < 64 && #[trigger] bits::member(p.occ, s) ==> q.pieces[types::flip_files(s)]
            == p.pieces[s]
    &&& q.king_of(pov) == types::flip_files(p.king_of(pov))
}

/// A player whose king has changed sides sees the image of a square as the square itself before.
proof fn lemma_mirrored_square(s: int, pov: Color, is_mirrored: bool)
    requires
        0 <= s < 64,
    ensures
        0 <= types::flip_files(s) < 64,
        types::flip_files(types::flip_files(s)) == s,
        types::file_of(types::flip_files(s)) == 7 - types::file_of(s),
        threats::oriented_square(types::flip_files(s), pov, !is_mirrored)
            == threats::oriented_square(s, pov, is_mirrored),
{
    geometry::lemma_mirror(s);
}

/// A piece has the same piece-square feature in the mirror.
proof fn lemma_mirrored_pst(p: Position, q: Position, pov: Color, s: int, v: usize)
    requires
        p.wf(),
        q.wf(),
        is_mirror_image(p, q, pov),
        0 <= s < 64,
    ensures
        turned::pst_count(p, pov, s, v) == turned::pst_count(q, pov, types::flip_files(s), v),
{
    let king = p.king_of(pov);
    lemma_mirrored_square(king, pov, features::is_mirrored(king));
    lemma_mirrored_square(s, pov, features::is_mirrored(king));
    assert(features::is_mirrored(q.king_of(pov)) == !features::is_mirrored(king));
    assert(bits::member(p.occ, s) <==> bits::member(q.occ, types::flip_files(s)));
}

/// A threat is the same feature in the mirror.
proof fn lemma_mirrored_threat(p: Position, q: Position, pov: Color, s: int, t: int, v: usize)
    requires
        p.wf(),
        q.wf(),
        is_mirror_image(p, q, pov),
        0 <= s < 64,
        0 <= t < 64,
    ensures
        turned::threat_count(p, pov, s, t, v) == turned::threat_count(
            q,
            pov,
            types::flip_files(s),
            types::flip_files(t),
            v,
        ),
{
    let king = p.king_of(pov);
    let is_mirrored = features::is_mirrored(king);
    lemma_mirrored_square(king, pov, is_mirrored);
    lemma_mirrored_square(s, pov, is_mirrored);
    lemma_mirrored_square(t, pov, is_mirrored);
    assert(features::is_mirrored(q.king_of(pov)) == !is_mirrored);
    assert(bits::member(p.occ, s) <==> bits::member(q.occ, types::flip_files(s)));
    assert(bits::member(p.occ, t) <==> bits::member(q.occ, types::flip_files(t)));
    geometry::lemma_attacks_mirrored(
        p.pieces[s].kind(),
        p.pieces[s].side(),
        s,
        t,
        p.occ,
        q.occ,
    );
}

/// A piece has the same features in the mirror.
proof fn lemma_mirrored_feature(p: Position, q: Position, pov: Color, s: int, v: usize)
    requires
        p.wf(),
        q.wf(),
        is_mirror_image(p, q, pov),
        0 <= s < 64,
    ensures
        turned::feature_count(p, pov, s, v) == turned::feature_count(
            q,
            pov,
            types::flip_files(s),
            v,
        ),
{
    let image = types::flip_files(s);
    lemma_mirrored_pst(p, q, pov, s, v);
    let f = |t: int| turned::threat_count(p, pov, s, t, v);
    let g = |t: int| turned::threat_count(q, pov, image, t, v);
    let h = |t: int| g(types::flip_files(t));
    assert forall|t: int| 0 <= t < 64 implies #[trigger] f(t) == h(t) by {
        lemma_mirrored_threat(p, q, pov, s, t, v);
    }
    sums::lemma_sum_equal(f, h, 64);
    sums::lemma_sum_mirror(g);
}

/// Mirroring the files leaves the features of a player as they are, if the player's king goes with
/// the pieces.
pub proof fn lemma_mirrored_features(p: Position, q: Position, pov: Color)
    requires
        p.wf(),
        q.wf(),
        is_mirror_image(p, q, pov),
    ensures
        features::features_of(p, pov).to_multiset() == features::features_of(
            q,
            pov,
        ).to_multiset(),
{
    let (a, b) = (
        features::features_of(p, pov).to_multiset(),
        features::features_of(q, pov).to_multiset(),
    );
    assert forall|v: usize| a.count(v) == b.count(v) by {
        turned::lemma_features_multiset(p, pov, 64, v);
        turned::lemma_features_multiset(q, pov, 64, v);
        let f = |s: int| turned::feature_count(p, pov, s, v);
        let g = |s: int| turned::feature_count(q, pov, s, v);
        let h = |s: int| g(types::flip_files(s));
        assert forall|s: int| 0 <= s < 64 implies #[trigger] f(s) == h(s) by {
            lemma_mirrored_feature(p, q, pov, s, v);
        }
        sums::lemma_sum_equal(f, h, 64);
        sums::lemma_sum_mirror(g);
    }
    assert(a =~= b);
}

/// Whether each set holds the mirror images of the squares of the set with the same number.
pub open spec fn are_mirrored_sets(sets: Seq<u64>, images: Seq<u64>) -> bool {
    &&& sets.len() == 12
    &&& images.len() == 12
    &&& forall|p: int|
        0 <= p < 12 ==> geometry::mirrored(#[trigger] sets[p], images[p])
}

/// Whether `k` is the only square of a set.
pub open spec fn is_single(set: u64, k: int) -> bool {
    bits::member(set, k) && forall|s: int| #[trigger] bits::member(set, s) ==> s == k
}

/// The squares of the kings of one colour.
pub open spec fn king_set(sets: Seq<u64>, c: Color) -> u64 {
    sets[10 + c.number()]
}

/// The last set that holds a square has the same number in the mirror.
proof fn lemma_mirrored_last_set(sets: Seq<u64>, images: Seq<u64>, s: int, n: int)
    requires
        are_mirrored_sets(sets, images),
        0 <= s < 64,
        0 <= n <= 12,
    ensures
        board::last_set(images, types::flip_files(s), n) == board::last_set(sets, s, n),
    decreases n,
{
    if n > 0 {
        assert(geometry::mirrored(sets[n - 1], images[n - 1]));
        assert(bits::member(sets[n - 1], s) <==> bits::member(
            images[n - 1],
            types::flip_files(s),
        ));
        lemma_mirrored_last_set(sets, images, s, n - 1);
    }
}

/// The only square of a set becomes the only square of its mirror image.
proof fn lemma_mirrored_single(set: u64, image: u64, k: int)
    requires
        geometry::mirrored(set, image),
        is_single(set, k),
    ensures
        0 <= k < 64,
        board::highest(set) == k,
        board::highest(image) == types::flip_files(k),
{
    lemma_mirrored_square(k, Color::White, false);
    board::lemma_highest(set, k, 64);
    assert forall|s: int| types::flip_files(k) < s < 64 implies !bits::member(image, s) by {
        lemma_mirrored_square(s, Color::White, false);
        assert(bits::member(set, types::flip_files(s)) <==> bits::member(
            image,
            types::flip_files(types::flip_files(s)),
        ));
    }
    assert(bits::member(set, k) <==> bits::member(image, types::flip_files(k)));
    board::lemma_highest(image, types::flip_files(k), 64);
}

/// Mirroring the files of a position leaves the features of a player who has exactly one king as
/// they are.
pub proof fn lemma_mirrored_sets(sets: Seq<u64>, images: Seq<u64>, pov: Color, k: int)
    requires
        are_mirrored_sets(sets, images),
        is_single(king_set(sets, pov), k),
    ensures
        features::features_of(Position::of_sets(sets), pov).to_multiset() == features::features_of(
            Position::of_sets(images),
            pov,
        ).to_multiset(),
{
    let (p, q) = (Position::of_sets(sets), Position::of_sets(images));
    board::lemma_of_sets_wf(sets);
    board::lemma_of_sets_wf(images);
    assert forall|s: int| 0 <= s < 64 implies {
        &&& #[trigger] bits::member(p.occ, s) <==> bits::member(q.occ, types::flip_files(s))
        &&& q.pieces[types::flip_files(s)] == p.pieces[s]
    } by {
        lemma_mirrored_square(s, Color::White, false);
        lemma_mirrored_last_set(sets, images, s, 12);
        board::lemma_union(sets, s, 12);
        board::lemma_union(images, types::flip_files(s), 12);
    }
    let n = 10 + pov.number();
    assert(geometry::mirrored(sets[n], images[n]));
    lemma_mirrored_single(sets[n], images[n], k);
    lemma_mirrored_features(p, q, pov);
}

} // verus!
