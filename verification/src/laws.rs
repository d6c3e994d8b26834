//! What holds of the features of every position.
use vstd::prelude::*;

use crate::bits;
use crate::board::Position;
use crate::features;
use crate::features::{NUM_INPUTS, PST_SIZE, THREAT_BASE};
use crate::geometry;
use crate::reach;
use crate::sums;
use crate::threats;
use crate::threats::NUM_THREATS;
use crate::types::Color;

verus! {

/// Whether `v` is the piece-square feature of the piece on `s`.
pub open spec fn is_pst_of(p: Position, pov: Color, s: int, v: usize) -> bool {
    0 <= s < 64 && bits::member(p.occ, s) && v == features::pst_at(p, pov, s)
}

/// Whether `v` is the feature of an active threat of the piece on `s` against the piece on `t`.
pub open spec fn is_threat_of(p: Position, pov: Color, s: int, t: int, v: usize) -> bool {
    features::is_active(p, pov, s, t) && v == THREAT_BASE + features::threat_at(p, pov, s, t)
}

/// The numbers are small enough for a machine word.
proof fn lemma_numbers_fit(p: Position, pov: Color, s: int, t: int)
    requires
        p.wf(),
        0 <= s < 64,
    ensures
        0 <= features::pst_at(p, pov, s) < PST_SIZE,
        features::is_active(p, pov, s, t) ==> 0 <= features::threat_at(p, pov, s, t) < NUM_THREATS,
        features::is_active(p, pov, s, t) ==> 0 <= t < 64,
{
    features::lemma_pst_range(
        p.pieces[s].side(),
        p.pieces[s].kind(),
        s,
        p.king_of(pov),
        pov,
    );
    if features::is_threat(p, s, t) {
        features::lemma_active_range(p, pov, s, t);
    }
}

#[verifier::rlimit(40)]
proof fn lemma_threats_contain(p: Position, pov: Color, s: int, n: nat, v: usize)
    requires
        p.wf(),
        0 <= s < 64,
        n <= 64,
    ensures
        features::threats_below(p, pov, s, n).contains(v) <==> exists|t: int|
            0 <= t < n && #[trigger] is_threat_of(p, pov, s, t, v),
    decreases n,
{
    let all = features::threats_below(p, pov, s, n);
    if n > 0 {
        let fewer = features::threats_below(p, pov, s, (n - 1) as nat);
        lemma_threats_contain(p, pov, s, (n - 1) as nat, v);
        lemma_numbers_fit(p, pov, s, n - 1);
        if features::is_active(p, pov, s, n - 1) {
            let last = (THREAT_BASE + features::threat_at(p, pov, s, n - 1)) as usize;
            lemma_push_contains(fewer, last, v);
            assert(last == v <==> is_threat_of(p, pov, s, n - 1, v));
        }
        if exists|t: int| 0 <= t < n && #[trigger] is_threat_of(p, pov, s, t, v) {
            let t = choose|t: int| 0 <= t < n && #[trigger] is_threat_of(p, pov, s, t, v);
            if t < n - 1 {
                assert(fewer.contains(v));
            }
        }
    }
}

proof fn lemma_push_contains(s: Seq<usize>, last: usize, v: usize)
    ensures
        s.push(last).contains(v) <==> s.contains(v) || last == v,
{
    if s.contains(v) {
        let i = choose|i: int| 0 <= i < s.len() && s[i] == v;
        assert(s.push(last)[i] == v);
    }
    assert(s.push(last)[s.len() as int] == last);
}

proof fn lemma_add_contains(a: Seq<usize>, b: Seq<usize>, v: usize)
    ensures
        (a + b).contains(v) <==> a.contains(v) || b.contains(v),
{
    if a.contains(v) {
        let i = choose|i: int| 0 <= i < a.len() && a[i] == v;
        assert((a + b)[i] == v);
    }
    if b.contains(v) {
        let i = choose|i: int| 0 <= i < b.len() && b[i] == v;
        assert((a + b)[a.len() + i] == v);
    }
    if (a + b).contains(v) {
        let i = choose|i: int| 0 <= i < (a + b).len() && (a + b)[i] == v;
        if i < a.len() {
            assert(a[i] == v);
        } else {
            assert(b[i - a.len()] == v);
        }
    }
}

/// Whether `v` is a feature of the piece on `s`: of its square or of one of its threats.
pub open spec fn is_feature_of(p: Position, pov: Color, s: int, v: usize) -> bool {
    is_pst_of(p, pov, s, v) || exists|t: int|
        0 <= t < 64 && #[trigger] is_threat_of(p, pov, s, t, v)
}

proof fn lemma_features_below_contain(p: Position, pov: Color, n: nat, v: usize)
    requires
        p.wf(),
        n <= 64,
    ensures
        features::features_below(p, pov, n).contains(v) <==> exists|s: int|
            0 <= s < n && #[trigger] is_feature_of(p, pov, s, v),
    decreases n,
{
    if n > 0 {
        let s = n - 1;
        let fewer = features::features_below(p, pov, (n - 1) as nat);
        lemma_features_below_contain(p, pov, (n - 1) as nat, v);
        lemma_numbers_fit(p, pov, s, 0);
        let pst = features::pst_at(p, pov, s) as usize;
        lemma_push_contains(fewer, pst, v);
        lemma_add_contains(fewer.push(pst), features::threats_below(p, pov, s, 64), v);
        lemma_threats_contain(p, pov, s, 64, v);
        if bits::member(p.occ, s) {
            assert(is_feature_of(p, pov, s, v) <==> pst == v || features::threats_below(
                p,
                pov,
                s,
                64,
            ).contains(v));
        } else {
            assert(!is_feature_of(p, pov, s, v));
        }
        if exists|u: int| 0 <= u < n && #[trigger] is_feature_of(p, pov, u, v) {
            let u = choose|u: int| 0 <= u < n && #[trigger] is_feature_of(p, pov, u, v);
            if u < n - 1 {
                assert(fewer.contains(v));
            }
        }
        if fewer.contains(v) {
            let u = choose|u: int| 0 <= u < n - 1 && #[trigger] is_feature_of(p, pov, u, v);
            assert(0 <= u < n && is_feature_of(p, pov, u, v));
        }
    }
}

/// The active features are exactly the squares of the pieces and the threats that are not left
/// out.
pub proof fn lemma_features_contain(p: Position, pov: Color, v: usize)
    requires
        p.wf(),
    ensures
        features::features_of(p, pov).contains(v) <==> exists|s: int|
            0 <= s < 64 && #[trigger] is_feature_of(p, pov, s, v),
{
    lemma_features_below_contain(p, pov, 64, v);
}

/// Every active feature is one of the `NUM_INPUTS` inputs: the squares of the pieces have the
/// numbers below `PST_SIZE`, the threats those from `THREAT_BASE` on.
pub proof fn lemma_feature_range(p: Position, pov: Color, v: usize)
    requires
        p.wf(),
        features::features_of(p, pov).contains(v),
    ensures
        v < NUM_INPUTS,
        v < PST_SIZE <==> exists|s: int| #[trigger] is_pst_of(p, pov, s, v),
        v >= THREAT_BASE <==> exists|s: int, t: int| #[trigger] is_threat_of(p, pov, s, t, v),
{
    lemma_features_contain(p, pov, v);
    assert forall|s: int| #[trigger] is_pst_of(p, pov, s, v) implies v < PST_SIZE by {
        lemma_numbers_fit(p, pov, s, 0);
    }
    assert forall|s: int, t: int| #[trigger] is_threat_of(p, pov, s, t, v) implies THREAT_BASE <= v
        < NUM_INPUTS by {
        lemma_numbers_fit(p, pov, s, t);
    }
    let s = choose|s: int| 0 <= s < 64 && #[trigger] is_feature_of(p, pov, s, v);
    if !is_pst_of(p, pov, s, v) {
        let t = choose|t: int| 0 <= t < 64 && #[trigger] is_threat_of(p, pov, s, t, v);
        assert(is_threat_of(p, pov, s, t, v));
    }
}

/// One for an active threat, zero for every other pair of squares.
pub open spec fn active_count(p: Position, pov: Color, s: int, t: int) -> int {
    if features::is_active(p, pov, s, t) {
        1
    } else {
        0
    }
}

proof fn lemma_threats_len(p: Position, pov: Color, s: int, n: nat)
    ensures
        features::threats_below(p, pov, s, n).len() == sums::sum(
            |t: int| active_count(p, pov, s, t),
            n,
        ),
    decreases n,
{
    if n > 0 {
        lemma_threats_len(p, pov, s, (n - 1) as nat);
    }
}

/// The number of features is that of the pieces and of the active threats.
pub proof fn lemma_features_len(p: Position, pov: Color, n: nat)
    ensures
        features::features_below(p, pov, n).len() == bits::count_below(p.occ, n) + sums::double_sum(
            |s: int, t: int| active_count(p, pov, s, t),
            n,
            64,
        ),
    decreases n,
{
    let f = |s: int, t: int| active_count(p, pov, s, t);
    if n > 0 {
        let s = n - 1;
        lemma_features_len(p, pov, (n - 1) as nat);
        lemma_threats_len(p, pov, s, 64);
        sums::lemma_sum_equal(|t: int| active_count(p, pov, s, t), |t: int| f(s, t), 64);
        if !bits::member(p.occ, s) {
            sums::lemma_sum_zero(|t: int| f(s, t), 64);
        }
    }
}

/// Which threats are left out does not depend on the player, but for the direction of mutual ones.
pub proof fn lemma_dropped(p: Position, pov: Color, s: int, t: int)
    requires
        p.wf(),
        features::is_threat(p, s, t),
    ensures
        features::is_active(p, pov, s, t) <==> !threats::is_excluded(p.pieces[s], p.pieces[t]) && (
        threats::is_semi_excluded(p.pieces[s], p.pieces[t]) ==> threats::oriented_square(
            s,
            pov,
            features::is_mirrored(p.king_of(pov)),
        ) >= threats::oriented_square(t, pov, features::is_mirrored(p.king_of(pov)))),
{
    let mirrored = features::is_mirrored(p.king_of(pov));
    let (a, b) = (p.pieces[s], p.pieces[t]);
    assert(a.wf() && b.wf());
    features::lemma_oriented_reach(a, s, t, pov, mirrored);
    features::lemma_oriented_reach(b, t, s, pov, mirrored);
    threats::lemma_oriented_piece(a, pov);
    threats::lemma_oriented_piece(b, pov);
    threats::lemma_threat_range(
        threats::oriented_piece(a, pov),
        threats::oriented_square(s, pov, mirrored),
        threats::oriented_piece(b, pov),
        threats::oriented_square(t, pov, mirrored),
    );
}

/// Between two pieces as many threats are active for White as for Black.
#[verifier::rlimit(40)]
proof fn lemma_pair_count(p: Position, s: int, t: int)
    requires
        p.wf(),
        0 <= s < 64,
        0 <= t < 64,
    ensures
        active_count(p, Color::White, s, t) + active_count(p, Color::White, t, s) == active_count(
            p,
            Color::Black,
            s,
            t,
        ) + active_count(p, Color::Black, t, s),
{
    if features::is_threat(p, s, t) {
        lemma_dropped(p, Color::White, s, t);
        lemma_dropped(p, Color::Black, s, t);
    }
    if features::is_threat(p, t, s) {
        lemma_dropped(p, Color::White, t, s);
        lemma_dropped(p, Color::Black, t, s);
    }
    let (a, b) = (p.pieces[s], p.pieces[t]);
    if threats::is_semi_excluded(a, b) {
        geometry::lemma_attacks_symmetric(a.kind(), a.side(), s, t, p.occ);
        assert(features::is_threat(p, s, t) == features::is_threat(p, t, s));
        if features::is_threat(p, s, t) {
            assert(s != t);
            lemma_oriented_apart(s, t, Color::White, features::is_mirrored(p.white_king));
            lemma_oriented_apart(s, t, Color::Black, features::is_mirrored(p.black_king));
        }
    }
}

/// Different squares are different to every player.
pub proof fn lemma_oriented_apart(s: int, t: int, pov: Color, mirrored: bool)
    requires
        0 <= s < 64,
        0 <= t < 64,
        s != t,
    ensures
        threats::oriented_square(s, pov, mirrored) != threats::oriented_square(t, pov, mirrored),
{
    threats::lemma_oriented_square(s, pov, mirrored);
    threats::lemma_oriented_square(t, pov, mirrored);
}

/// Both players have the same number of active features.
pub proof fn lemma_same_number_of_features(p: Position)
    requires
        p.wf(),
    ensures
        features::features_of(p, Color::White).len() == features::features_of(p, Color::Black).len(),
{
    let f = |s: int, t: int| active_count(p, Color::White, s, t);
    let g = |s: int, t: int| active_count(p, Color::Black, s, t);
    lemma_features_len(p, Color::White, 64);
    lemma_features_len(p, Color::Black, 64);
    assert forall|s: int, t: int| 0 <= s < 64 && 0 <= t < 64 implies #[trigger] f(s, t) + f(t, s)
        == g(s, t) + g(t, s) by {
        lemma_pair_count(p, s, t);
    }
    sums::lemma_sum_symmetric(f, g, 64);
}

/// How many of the features are piece-square features.
pub open spec fn pst_features(s: Seq<usize>) -> nat
    decreases s.len(),
{
    if s.len() == 0 {
        0
    } else if s.last() < PST_SIZE {
        pst_features(s.drop_last()) + 1
    } else {
        pst_features(s.drop_last())
    }
}

proof fn lemma_pst_features_push(s: Seq<usize>, v: usize)
    ensures
        pst_features(s.push(v)) == pst_features(s) + if v < PST_SIZE {
            1int
        } else {
            0int
        },
{
    assert(s.push(v).drop_last() =~= s);
}

/// The threats of a piece add no piece-square feature.
proof fn lemma_pst_features_threats(before: Seq<usize>, p: Position, pov: Color, s: int, n: nat)
    requires
        p.wf(),
        0 <= s < 64,
        n <= 64,
    ensures
        pst_features(before + features::threats_below(p, pov, s, n)) == pst_features(before),
    decreases n,
{
    let threats = features::threats_below(p, pov, s, n);
    if n == 0 {
        assert(before + threats =~= before);
    } else {
        let fewer = features::threats_below(p, pov, s, (n - 1) as nat);
        lemma_pst_features_threats(before, p, pov, s, (n - 1) as nat);
        lemma_numbers_fit(p, pov, s, n - 1);
        if features::is_active(p, pov, s, n - 1) {
            assert(before + threats =~= (before + fewer).push(threats.last()));
            lemma_pst_features_push(before + fewer, threats.last());
        }
    }
}

proof fn lemma_pst_features_below(p: Position, pov: Color, n: nat)
    requires
        p.wf(),
        n <= 64,
    ensures
        pst_features(features::features_below(p, pov, n)) == bits::count_below(p.occ, n),
    decreases n,
{
    if n > 0 {
        let fewer = features::features_below(p, pov, (n - 1) as nat);
        lemma_pst_features_below(p, pov, (n - 1) as nat);
        lemma_numbers_fit(p, pov, n - 1, 0);
        let pst = features::pst_at(p, pov, n - 1) as usize;
        lemma_pst_features_push(fewer, pst);
        lemma_pst_features_threats(fewer.push(pst), p, pov, n - 1, 64);
    }
}

/// Every piece has exactly one piece-square feature, so there are as many of them as pieces.
pub proof fn lemma_one_pst_feature_per_piece(p: Position, pov: Color)
    requires
        p.wf(),
    ensures
        pst_features(features::features_of(p, pov)) == bits::count(p.occ),
{
    lemma_pst_features_below(p, pov, 64);
}

/// Whether no pawn attacks a piece from where no pawn can stand.
pub open spec fn pawns_in_place(p: Position) -> bool {
    forall|s: int, t: int| #[trigger]
        features::is_threat(p, s, t) ==> reach::is_origin(p.pieces[s], s)
}

/// Different active threats are different features.
proof fn lemma_threat_unique(p: Position, pov: Color, s: int, t: int, u: int, w: int, v: usize)
    requires
        p.wf(),
        pawns_in_place(p),
        is_threat_of(p, pov, s, t, v),
        is_threat_of(p, pov, u, w, v),
    ensures
        s == u,
        t == w,
{
    let mirrored = features::is_mirrored(p.king_of(pov));
    lemma_threat_numbered(p, pov, s, t);
    lemma_threat_numbered(p, pov, u, w);
    threats::lemma_threat_numbers_distinct(
        threats::oriented_piece(p.pieces[s], pov),
        threats::oriented_square(s, pov, mirrored),
        threats::oriented_piece(p.pieces[t], pov),
        threats::oriented_square(t, pov, mirrored),
        threats::oriented_piece(p.pieces[u], pov),
        threats::oriented_square(u, pov, mirrored),
        threats::oriented_piece(p.pieces[w], pov),
        threats::oriented_square(w, pov, mirrored),
    );
    threats::lemma_oriented_square(s, pov, mirrored);
    threats::lemma_oriented_square(t, pov, mirrored);
    threats::lemma_oriented_square(u, pov, mirrored);
    threats::lemma_oriented_square(w, pov, mirrored);
}

proof fn lemma_threat_numbered(p: Position, pov: Color, s: int, t: int)
    requires
        p.wf(),
        pawns_in_place(p),
        features::is_active(p, pov, s, t),
    ensures
        0 <= s < 64,
        0 <= t < 64,
        ({
            let mirrored = features::is_mirrored(p.king_of(pov));
            threats::is_numbered(
                threats::oriented_piece(p.pieces[s], pov),
                threats::oriented_square(s, pov, mirrored),
                threats::oriented_piece(p.pieces[t], pov),
                threats::oriented_square(t, pov, mirrored),
            )
        }),
{
    let mirrored = features::is_mirrored(p.king_of(pov));
    let (a, b) = (p.pieces[s], p.pieces[t]);
    assert(a.wf() && b.wf());
    assert(reach::is_origin(a, s));
    features::lemma_oriented_reach(a, s, t, pov, mirrored);
    features::lemma_oriented_reach(b, t, s, pov, mirrored);
    threats::lemma_oriented_piece(a, pov);
    threats::lemma_oriented_piece(b, pov);
    threats::lemma_oriented_square(s, pov, mirrored);
    threats::lemma_threat_range(
        threats::oriented_piece(a, pov),
        threats::oriented_square(s, pov, mirrored),
        threats::oriented_piece(b, pov),
        threats::oriented_square(t, pov, mirrored),
    );
}

/// Pieces on different squares have different piece-square features.
proof fn lemma_pst_unique(p: Position, pov: Color, s: int, u: int, v: usize)
    requires
        p.wf(),
        is_pst_of(p, pov, s, v),
        is_pst_of(p, pov, u, v),
    ensures
        s == u,
{
    let mirrored = features::is_mirrored(p.king_of(pov));
    threats::lemma_oriented_square(s, pov, mirrored);
    threats::lemma_oriented_square(u, pov, mirrored);
}

proof fn lemma_push_unique(s: Seq<usize>, v: usize)
    requires
        s.no_duplicates(),
        !s.contains(v),
    ensures
        s.push(v).no_duplicates(),
{
}

proof fn lemma_add_unique(a: Seq<usize>, b: Seq<usize>)
    requires
        a.no_duplicates(),
        b.no_duplicates(),
        forall|v: usize| #[trigger] a.contains(v) ==> !b.contains(v),
    ensures
        (a + b).no_duplicates(),
{
    let c = a + b;
    assert forall|i: int, j: int| 0 <= i < c.len() && 0 <= j < c.len() && i != j implies c[i]
        != c[j] by {
        let n = a.len() as int;
        if i < n && j >= n {
            assert(a.contains(c[i]));
            assert(b[j - n] == c[j]);
        } else if i >= n && j < n {
            assert(a.contains(c[j]));
            assert(b[i - n] == c[i]);
        } else if i < n {
            assert(a[i] == c[i] && a[j] == c[j]);
        } else {
            assert(b[i - n] == c[i] && b[j - n] == c[j]);
        }
    }
}

proof fn lemma_threats_unique(p: Position, pov: Color, s: int, n: nat)
    requires
        p.wf(),
        pawns_in_place(p),
        0 <= s < 64,
        n <= 64,
    ensures
        features::threats_below(p, pov, s, n).no_duplicates(),
    decreases n,
{
    if n > 0 {
        let fewer = features::threats_below(p, pov, s, (n - 1) as nat);
        lemma_threats_unique(p, pov, s, (n - 1) as nat);
        if features::is_active(p, pov, s, n - 1) {
            let v = (THREAT_BASE + features::threat_at(p, pov, s, n - 1)) as usize;
            lemma_numbers_fit(p, pov, s, n - 1);
            lemma_threats_contain(p, pov, s, (n - 1) as nat, v);
            assert(is_threat_of(p, pov, s, n - 1, v));
            if fewer.contains(v) {
                let t = choose|t: int| 0 <= t < n - 1 && #[trigger] is_threat_of(p, pov, s, t, v);
                lemma_threat_unique(p, pov, s, t, s, n - 1, v);
            }
            lemma_push_unique(fewer, v);
        }
    }
}

proof fn lemma_features_below_unique(p: Position, pov: Color, n: nat)
    requires
        p.wf(),
        pawns_in_place(p),
        n <= 64,
    ensures
        features::features_below(p, pov, n).no_duplicates(),
    decreases n,
{
    if n > 0 {
        let s = n - 1;
        let fewer = features::features_below(p, pov, (n - 1) as nat);
        lemma_features_below_unique(p, pov, (n - 1) as nat);
        if bits::member(p.occ, s) {
            let pst = features::pst_at(p, pov, s) as usize;
            let own = features::threats_below(p, pov, s, 64);
            lemma_numbers_fit(p, pov, s, 0);
            lemma_threats_unique(p, pov, s, 64);
            lemma_features_below_contain(p, pov, (n - 1) as nat, pst);
            if fewer.contains(pst) {
                let u = choose|u: int| 0 <= u < n - 1 && #[trigger] is_feature_of(p, pov, u, pst);
                if is_pst_of(p, pov, u, pst) {
                    assert(is_pst_of(p, pov, s, pst));
                    lemma_pst_unique(p, pov, u, s, pst);
                } else {
                    let t = choose|t: int|
                        0 <= t < 64 && #[trigger] is_threat_of(p, pov, u, t, pst);
                    lemma_numbers_fit(p, pov, u, t);
                }
            }
            lemma_push_unique(fewer, pst);
            let first = fewer.push(pst);
            assert forall|v: usize| #[trigger] first.contains(v) implies !own.contains(v) by {
                if own.contains(v) {
                    lemma_threats_contain(p, pov, s, 64, v);
                    let t = choose|t: int| 0 <= t < 64 && #[trigger] is_threat_of(p, pov, s, t, v);
                    lemma_numbers_fit(p, pov, s, t);
                    lemma_push_contains(fewer, pst, v);
                    lemma_features_below_contain(p, pov, (n - 1) as nat, v);
                    let u = choose|u: int| 0 <= u < n - 1 && #[trigger] is_feature_of(p, pov, u, v);
                    lemma_numbers_fit(p, pov, u, 0);
                    let w = choose|w: int| 0 <= w < 64 && #[trigger] is_threat_of(p, pov, u, w, v);
                    lemma_threat_unique(p, pov, s, t, u, w, v);
                }
            }
            lemma_add_unique(first, own);
        }
    }
}

/// No feature is listed twice, as long as no pawn attacks a piece from the first or the last rank.
pub proof fn lemma_features_distinct(p: Position, pov: Color)
    requires
        p.wf(),
        pawns_in_place(p),
    ensures
        features::features_of(p, pov).no_duplicates(),
{
    lemma_features_below_unique(p, pov, 64);
}

} // verus!
