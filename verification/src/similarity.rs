//! Cosine similarity between the target user and every other user.
//!
//! Similarities are exact fixed-point integers: a reported value `s` stands
//! for the real number `s / SIM_SCALE`. The value for a neighbour is
//! `dot * SIM_SCALE / floor(sqrt(normT * normO * SIM_SCALE * SIM_SCALE))`
//! computed over the overlap set alone, exactly as the spec functions below
//! state it.
use vstd::prelude::*;

use crate::data_processing::{lemma_ratings_first_row, RatingStore, MAX_USER_ITEMS};
use crate::pairs::{
    has_key, lemma_val_of_first, lemma_val_of_in_range, lemma_val_of_prefix, unique_keys, val_of,
    values_in_rating_range,
};
use vstd::arithmetic::div_mod::{
    lemma_div_by_multiple, lemma_div_is_ordered, lemma_div_is_ordered_by_denominator,
};

verus! {

/// One unit of similarity: reported values are in units of `1 / SIM_SCALE`.
pub const SIM_SCALE: i64 = 1000000000;

/// `SIM_SCALE` as the unsigned width the computation runs in.
pub const SIM_SCALE_U: u128 = 1000000000;

/// No similarity value ever exceeds this bound (one hundred times the scale);
/// the bound keeps every downstream aggregation inside 128-bit integers.
pub const SIM_CAP: i64 = 100000000000;

/// Upper bound on the scaled squared-norm product handed to the square root.
pub const SIM_NORM_LIMIT: u128 = 25000000000000000000000000000000000000;

/// Fold `f` over the entries of `ts` whose item also occurs in `os`; `f` sees
/// the target's rating and the other user's rating of the common item.
pub open spec fn cross(ts: Seq<(u32, u32)>, os: Seq<(u32, u32)>, f: spec_fn(int, int) -> int) -> int
    decreases ts.len(),
{
    if ts.len() == 0 {
        0
    } else {
        cross(ts.drop_last(), os, f) + if has_key(os, ts.last().0) {
            f(ts.last().1 as int, val_of(os, ts.last().0) as int)
        } else {
            0
        }
    }
}

/// Dot product of the two rating vectors over the overlap set.
pub open spec fn dot_product(ts: Seq<(u32, u32)>, os: Seq<(u32, u32)>) -> int {
    cross(ts, os, |a: int, b: int| a * b)
}

/// Squared norm of the target's ratings over the overlap set.
pub open spec fn target_norm_sq(ts: Seq<(u32, u32)>, os: Seq<(u32, u32)>) -> int {
    cross(ts, os, |a: int, b: int| a * a)
}

/// Squared norm of the other user's ratings over the overlap set.
pub open spec fn other_norm_sq(ts: Seq<(u32, u32)>, os: Seq<(u32, u32)>) -> int {
    cross(ts, os, |a: int, b: int| b * b)
}

/// How many of the target's rated items the other user has also rated.
pub open spec fn common_count(ts: Seq<(u32, u32)>, os: Seq<(u32, u32)>) -> int {
    cross(ts, os, |a: int, b: int| 1)
}

/// `r` is the integer square root of `n`, rounded down.
pub open spec fn is_sqrt(n: int, r: int) -> bool {
    0 <= r && r * r <= n && n < (r + 1) * (r + 1)
}

/// The integer square root of `n`, rounded down.
pub open spec fn sqrt_floor(n: int) -> int {
    choose|r: int| is_sqrt(n, r)
}

/// The rounded-down square root is unique.
pub proof fn lemma_sqrt_unique(n: int, r: int)
    requires
        is_sqrt(n, r),
    ensures
        sqrt_floor(n) == r,
{
    let r2 = sqrt_floor(n);
    assert(is_sqrt(n, r2)) by {
        assert(is_sqrt(n, r));
    }
    if r2 < r {
        assert((r2 + 1) * (r2 + 1) <= r * r) by (nonlinear_arith)
            requires
                0 <= r2 + 1 <= r,
        ;
        assert(false);
    }
    if r2 > r {
        assert((r + 1) * (r + 1) <= r2 * r2) by (nonlinear_arith)
            requires
                0 <= r + 1 <= r2,
        ;
        assert(false);
    }
}

/// The similarity of the target vector `ts` against `os`, in units of
/// `1 / SIM_SCALE`: the fixed-point cosine of the two vectors restricted to
/// their overlap set.
pub open spec fn similarity_nanos(ts: Seq<(u32, u32)>, os: Seq<(u32, u32)>) -> int {
    dot_product(ts, os) * (SIM_SCALE as int) * (SIM_SCALE as int) / sqrt_floor(
        target_norm_sq(ts, os) * other_norm_sq(ts, os) * (SIM_SCALE as int) * (SIM_SCALE as int),
    )
}

/// Integer square root, rounded down, by bisection.
pub fn isqrt_u128(n: u128) -> (r: u64)
    requires
        n <= SIM_NORM_LIMIT,
    ensures
        is_sqrt(n as int, r as int),
{
    let mut lo: u64 = 0;
    let mut hi: u64 = 6000000000000000000;
    proof {
        assert((6000000000000000000 as int) * (6000000000000000000 as int) > SIM_NORM_LIMIT as int)
            by (nonlinear_arith);
    }
    while lo + 1 < hi
        invariant
            lo < hi <= 6000000000000000000,
            (lo as int) * (lo as int) <= n as int,
            (hi as int) * (hi as int) > n as int,
        decreases hi - lo,
    {
        let mid = lo + (hi - lo) / 2;
        proof {
            assert((mid as int) * (mid as int) <= (6000000000000000000 as int)
                * (6000000000000000000 as int)) by (nonlinear_arith)
                requires
                    0 <= mid <= 6000000000000000000,
            ;
        }
        let m2 = (mid as u128) * (mid as u128);
        if m2 <= n {
            lo = mid;
        } else {
            hi = mid;
        }
    }
    lo
}

/// The value `sim_in` yields for key `u` among similarity entries: the value
/// of the first entry carrying `u`, or 0 if none does.
pub open spec fn sim_in(s: Seq<(u32, i64)>, u: u32) -> i64
    decreases s.len(),
{
    if s.len() == 0 {
        0
    } else if s[0].0 == u {
        s[0].1
    } else {
        sim_in(s.drop_first(), u)
    }
}

/// If entry `i` is the first one carrying `u`, then `sim_in` returns its value.
pub proof fn lemma_sim_in_first(s: Seq<(u32, i64)>, u: u32, i: int)
    requires
        0 <= i < s.len(),
        s[i].0 == u,
        forall|m: int| 0 <= m < i ==> (#[trigger] s[m]).0 != u,
    ensures
        sim_in(s, u) == s[i].1,
    decreases s.len(),
{
    if i > 0 {
        lemma_sim_in_first(s.drop_first(), u, i - 1);
        assert(forall|m: int|
            0 <= m < s.drop_first().len() ==> #[trigger] s.drop_first()[m] == s[m + 1]);
    }
}

/// Similarity map: other user -> fixed-point similarity. Keys are unique and
/// every value lies within the cap; the similarity engine only emits positive
/// values, but consumers must accept (and filter) non-positive ones.
pub struct SimilarityMap {
    pub entries: Vec<(u32, i64)>,
}

impl SimilarityMap {
    /// The entries of the map, as a sequence.
    pub open spec fn table(self) -> Seq<(u32, i64)> {
        self.entries@
    }

    /// Is `u` a key of the map?
    pub open spec fn contains_user(self, u: u32) -> bool {
        exists|i: int| 0 <= i < self.table().len() && (#[trigger] self.table()[i]).0 == u
    }

    /// The similarity recorded for `u` (0 if absent).
    pub open spec fn sim_of(self, u: u32) -> i64 {
        sim_in(self.table(), u)
    }

    /// Map invariant: unique keys, all values within the cap.
    pub open spec fn wf(self) -> bool {
        &&& forall|i: int, j: int|
            0 <= i < j < self.table().len() ==> (#[trigger] self.table()[i]).0
                != (#[trigger] self.table()[j]).0
        &&& forall|i: int|
            0 <= i < self.table().len() ==> -SIM_CAP <= (#[trigger] self.table()[i]).1 <= SIM_CAP
    }

    /// An empty similarity map.
    pub fn new() -> (r: SimilarityMap)
        ensures
            r.wf(),
            r.table().len() == 0,
            forall|u: u32| !r.contains_user(u),
    {
        SimilarityMap { entries: Vec::new() }
    }

    /// How many users the map holds.
    pub fn len(&self) -> (n: usize)
        ensures
            n == self.table().len(),
    {
        self.entries.len()
    }

    /// Is the map empty?
    pub fn is_empty(&self) -> (b: bool)
        ensures
            b == (self.table().len() == 0),
    {
        self.entries.len() == 0
    }

    /// The similarity recorded for `u`, if any.
    pub fn get(&self, u: u32) -> (r: Option<i64>)
        ensures
            r is Some == self.contains_user(u),
            r matches Some(v) ==> v == self.sim_of(u),
    {
        let n = self.entries.len();
        let mut i: usize = 0;
        while i < n
            invariant
                n == self.table().len(),
                0 <= i <= n,
                forall|m: int| 0 <= m < i ==> (#[trigger] self.table()[m]).0 != u,
            decreases n - i,
        {
            if self.entries[i].0 == u {
                proof {
                    lemma_sim_in_first(self.table(), u, i as int);
                }
                return Some(self.entries[i].1);
            }
            i += 1;
        }
        None
    }
}

/// Cosine similarity of the target user against every other user of the
/// store, over the overlap set of each pair.
///
/// A user appears in the result exactly when it is not the target and shares
/// at least one rated item with the target, and then its value is exactly
/// `similarity_nanos` of the two rating vectors: positive and at most
/// `SIM_CAP`. Users with no overlap are absent, not zero.
pub fn calculate_similarity(user_ratings: &RatingStore, target_user: u32) -> (r: SimilarityMap)
    requires
        user_ratings.wf(),
        user_ratings.contains_user(target_user),
    ensures
        r.wf(),
        forall|k: int|
            #![trigger r.table()[k]]
            0 <= k < r.table().len() ==> {
                let e = r.table()[k];
                &&& e.0 != target_user
                &&& user_ratings.contains_user(e.0)
                &&& common_count(
                    user_ratings.ratings_of(target_user),
                    user_ratings.ratings_of(e.0),
                ) > 0
                &&& e.1 == similarity_nanos(
                    user_ratings.ratings_of(target_user),
                    user_ratings.ratings_of(e.0),
                )
                &&& 0 < e.1 <= SIM_CAP
            },
        forall|u: u32|
            #[trigger] r.contains_user(u) <==> (user_ratings.contains_user(u) && u != target_user
                && common_count(
                user_ratings.ratings_of(target_user),
                user_ratings.ratings_of(u),
            ) > 0),
        forall|u: u32|
            #[trigger] r.contains_user(u) ==> r.sim_of(u) == similarity_nanos(
                user_ratings.ratings_of(target_user),
                user_ratings.ratings_of(u),
            ),
{
    let ghost tr = user_ratings.ratings_of(target_user);
    let ti = match user_ratings.find_user_row(target_user) {
        Some(ti) => ti,
        None => {
            proof {
                assert(false);
            }
            0
        },
    };
    let t_items = &user_ratings.users[ti].items;
    proof {
        assert(user_ratings.rows()[ti as int].items@ == tr);
        assert(tr.len() <= MAX_USER_ITEMS && values_in_rating_range(tr));
    }
    let mut result = SimilarityMap { entries: Vec::new() };
    let n = user_ratings.users.len();
    let mut i: usize = 0;
    while i < n
        invariant
            user_ratings.wf(),
            user_ratings.contains_user(target_user),
            n == user_ratings.rows().len(),
            0 <= i <= n,
            ti < n,
            t_items@ == tr,
            tr == user_ratings.ratings_of(target_user),
            tr.len() <= MAX_USER_ITEMS,
            values_in_rating_range(tr),
            result.wf(),
            forall|k: int|
                #![trigger result.table()[k]]
                0 <= k < result.table().len() ==> {
                    let e = result.table()[k];
                    &&& e.0 != target_user
                    &&& user_ratings.contains_user(e.0)
                    &&& common_count(tr, user_ratings.ratings_of(e.0)) > 0
                    &&& e.1 == similarity_nanos(tr, user_ratings.ratings_of(e.0))
                    &&& 0 < e.1 <= SIM_CAP
                },
            forall|k: int|
                0 <= k < result.table().len() ==> exists|m: int|
                    0 <= m < i && (#[trigger] user_ratings.rows()[m]).user == (
                    #[trigger] result.table()[k]).0,
            forall|m: int|
                0 <= m < i && (#[trigger] user_ratings.rows()[m]).user != target_user
                    && common_count(tr, user_ratings.ratings_of(user_ratings.rows()[m].user)) > 0
                    ==> result.contains_user(user_ratings.rows()[m].user),
        decreases n - i,
    {
        let ghost result0 = result;
        let row = &user_ratings.users[i];
        if row.user != target_user {
            let ghost os = user_ratings.ratings_of(row.user);
            proof {
                lemma_ratings_first_row(user_ratings.rows(), i as int);
                assert(os == row.items@);
            }
            let mut d: u128 = 0;
            let mut a: u128 = 0;
            let mut b: u128 = 0;
            let mut cc: usize = 0;
            let m = t_items.len();
            let mut j: usize = 0;
            while j < m
                invariant
                    user_ratings.wf(),
                    n == user_ratings.rows().len(),
                    i < n,
                    ti < n,
                    t_items@ == tr,
                    os == user_ratings.rows()[i as int].items@,
                    os == row.items@,
                    m == tr.len(),
                    m <= MAX_USER_ITEMS,
                    0 <= j <= m,
                    values_in_rating_range(tr),
                    values_in_rating_range(os),
                    d == dot_product(tr.take(j as int), os),
                    a == target_norm_sq(tr.take(j as int), os),
                    b == other_norm_sq(tr.take(j as int), os),
                    cc == common_count(tr.take(j as int), os),
                    cc <= j,
                    d <= 100 * cc,
                    a <= 100 * cc,
                    b <= 100 * cc,
                    d >= cc,
                    a >= cc,
                    b >= cc,
                decreases m - j,
            {
                let it = t_items[j].0;
                let trat = t_items[j].1;
                let ghost tkj = tr.take(j as int);
                let ghost tkj1 = tr.take(j as int + 1);
                proof {
                    assert(tkj1.drop_last() =~= tkj);
                    assert(tkj1.last() == tr[j as int]);
                    assert(1 <= trat <= 10);
                }
                proof {
                    assert(tr[j as int].0 == it && tr[j as int].1 == trat);
                }
                match crate::pairs::lookup_val(&row.items, it) {
                    Some(orat) => {
                        proof {
                            lemma_val_of_in_range(os, it);
                            assert(val_of(os, it) == orat);
                            assert(dot_product(tkj1, os) == dot_product(tkj, os) + (trat as int)
                                * (orat as int));
                            assert(target_norm_sq(tkj1, os) == target_norm_sq(tkj, os) + (
                            trat as int) * (trat as int));
                            assert(other_norm_sq(tkj1, os) == other_norm_sq(tkj, os) + (
                            orat as int) * (orat as int));
                            assert(common_count(tkj1, os) == common_count(tkj, os) + 1);
                            assert((trat as int) * (orat as int) <= 100 && (trat as int) * (
                            orat as int) >= 1 && (trat as int) * (trat as int) <= 100 && (
                            trat as int) * (trat as int) >= 1 && (orat as int) * (orat as int)
                                <= 100 && (orat as int) * (orat as int) >= 1) by (nonlinear_arith)
                                requires
                                    1 <= trat <= 10,
                                    1 <= orat <= 10,
                            ;
                        }
                        d = d + (trat as u128) * (orat as u128);
                        a = a + (trat as u128) * (trat as u128);
                        b = b + (orat as u128) * (orat as u128);
                        cc = cc + 1;
                    },
                    None => {
                        proof {
                            assert(!has_key(os, it));
                            assert(dot_product(tkj1, os) == dot_product(tkj, os));
                            assert(target_norm_sq(tkj1, os) == target_norm_sq(tkj, os));
                            assert(other_norm_sq(tkj1, os) == other_norm_sq(tkj, os));
                            assert(common_count(tkj1, os) == common_count(tkj, os));
                        }
                    },
                }
                j += 1;
            }
            proof {
                assert(tr.take(m as int) =~= tr);
                assert(cc == common_count(tr, user_ratings.rows()[i as int].items@));
            }
            if cc > 0 {
                let nsq = mul_norms(a, b, cc);
                if nsq != 0 {
                    proof {
                        assert(nsq * SIM_SCALE_U * SIM_SCALE_U <= SIM_NORM_LIMIT);
                    }
                    let dnm = isqrt_u128(nsq * SIM_SCALE_U * SIM_SCALE_U);
                    let ghost nn = (nsq * SIM_SCALE_U * SIM_SCALE_U) as int;
                    proof {
                        lemma_sqrt_unique(nn, dnm as int);
                        lemma_similarity_bounds(
                            d as int,
                            a as int,
                            b as int,
                            cc as int,
                            dnm as int,
                        );
                    }
                    let sim_wide = (d * SIM_SCALE_U * SIM_SCALE_U) / (dnm as u128);
                    let sim = sim_wide as i64;
                    let ghost prev = result.table();
                    result.entries.push((row.user, sim));
                    proof {
                        assert(result.table() =~= prev.push((row.user, sim)));
                        assert(sim == similarity_nanos(tr, os));
                        assert forall|k: int|
                            0 <= k < result.table().len() implies exists|mm: int|
                            0 <= mm < i + 1 && (#[trigger] user_ratings.rows()[mm]).user == (
                            #[trigger] result.table()[k]).0 by {
                            if k < prev.len() {
                                assert(prev[k] == result.table()[k]);
                            } else {
                                assert(user_ratings.rows()[i as int].user
                                    == result.table()[k].0);
                            }
                        }
                        assert(result.table()[prev.len() as int].0 == row.user);
                        assert(result.contains_user(user_ratings.rows()[i as int].user));
                        assert forall|k1: int, k2: int|
                            0 <= k1 < k2 < result.table().len() implies (
                        #[trigger] result.table()[k1]).0 != (#[trigger] result.table()[k2]).0 by {
                            if k2 == prev.len() {
                                let mm = choose|mm: int|
                                    0 <= mm < i && (#[trigger] user_ratings.rows()[mm]).user
                                        == prev[k1].0;
                                assert(user_ratings.rows()[mm].user
                                    != user_ratings.rows()[i as int].user);
                            }
                        }
                    }
                }
            }
        }
        i += 1;
        proof {
            assert forall|m2: int|
                0 <= m2 < i && (#[trigger] user_ratings.rows()[m2]).user != target_user
                    && common_count(tr, user_ratings.ratings_of(user_ratings.rows()[m2].user))
                    > 0 implies result.contains_user(user_ratings.rows()[m2].user) by {
                if m2 == i - 1 {
                    lemma_ratings_first_row(user_ratings.rows(), m2);
                    assert(user_ratings.ratings_of(user_ratings.rows()[m2].user)
                        == user_ratings.rows()[m2].items@);
                } else {
                    assert(result0.contains_user(user_ratings.rows()[m2].user));
                    let k = choose|k: int|
                        0 <= k < result0.table().len() && (#[trigger] result0.table()[k]).0
                            == user_ratings.rows()[m2].user;
                    assert(result.table()[k] == result0.table()[k]);
                }
            }
        }
    }
    proof {
        assert forall|u: u32|
            #[trigger] result.contains_user(u) <==> (user_ratings.contains_user(u) && u
                != target_user && common_count(tr, user_ratings.ratings_of(u)) > 0) by {
            if result.contains_user(u) {
                let k = choose|k: int|
                    0 <= k < result.table().len() && (#[trigger] result.table()[k]).0 == u;
            }
            if user_ratings.contains_user(u) && u != target_user && common_count(
                tr,
                user_ratings.ratings_of(u),
            ) > 0 {
                let m2 = choose|m2: int|
                    0 <= m2 < user_ratings.rows().len() && (#[trigger] user_ratings.rows()[m2]).user
                        == u;
            }
        }
        assert forall|u: u32|
            #[trigger] result.contains_user(u) implies result.sim_of(u) == similarity_nanos(
            tr,
            user_ratings.ratings_of(u),
        ) by {
            let k = choose|k: int|
                0 <= k < result.table().len() && (#[trigger] result.table()[k]).0 == u;
            assert forall|m: int|
                0 <= m < k implies (#[trigger] result.table()[m]).0 != u by {}
            lemma_sim_in_first(result.table(), u, k);
        }
    }
    result
}

/// Multiply the two squared norms, proving the product stays within bounds.
fn mul_norms(a: u128, b: u128, cc: usize) -> (nsq: u128)
    requires
        cc >= 1,
        cc <= MAX_USER_ITEMS,
        cc <= a <= 100 * cc,
        cc <= b <= 100 * cc,
    ensures
        nsq == a * b,
        (cc as int) * (cc as int) <= nsq as int,
        nsq <= 25000000000000000000,
        nsq * SIM_SCALE_U * SIM_SCALE_U <= SIM_NORM_LIMIT,
        nsq >= 1,
{
    proof {
        assert((a as int) * (b as int) <= 25000000000000000000 && (a as int) * (b as int) >= (
        cc as int) * (cc as int) && (cc as int) * (cc as int) >= 1) by (nonlinear_arith)
            requires
                1 <= cc <= 50000000,
                cc <= a <= 100 * cc,
                cc <= b <= 100 * cc,
        ;
    }
    a * b
}

/// From the square-root bounds, derive that the fixed-point quotient is the
/// spec similarity, positive, and at most `SIM_CAP`.
proof fn lemma_similarity_bounds(d: int, a: int, b: int, cc: int, dnm: int)
    requires
        1 <= cc <= MAX_USER_ITEMS,
        cc <= d <= 100 * cc,
        cc <= a <= 100 * cc,
        cc <= b <= 100 * cc,
        is_sqrt(a * b * (SIM_SCALE as int) * (SIM_SCALE as int), dnm),
    ensures
        dnm >= 1,
        1 <= d * (SIM_SCALE as int) * (SIM_SCALE as int) / dnm <= SIM_CAP,
{
    let s = SIM_SCALE as int;
    let nn = a * b * s * s;
    assert((cc * s) * (cc * s) <= a * b * s * s && a * b * s * s <= (100 * cc * s) * (100 * cc
        * s)) by (nonlinear_arith)
        requires
            1 <= cc,
            cc <= a <= 100 * cc,
            cc <= b <= 100 * cc,
            s == 1000000000,
    ;
    // dnm is at least cc * s ...
    assert(dnm + 1 > cc * s) by (nonlinear_arith)
        requires
            dnm >= 0,
            nn < (dnm + 1) * (dnm + 1),
            (cc * s) * (cc * s) <= nn,
            cc * s >= 0,
    ;
    // ... and at most 100 * cc * s.
    assert(dnm <= 100 * cc * s) by (nonlinear_arith)
        requires
            dnm * dnm <= nn,
            nn <= (100 * cc * s) * (100 * cc * s),
            100 * cc * s >= 0,
            dnm >= 0,
    ;
    assert(dnm >= cc * s);
    assert(dnm >= 1);
    // Upper bound: d * s * s / dnm <= 100 * cc * s * s / (cc * s) == 100 * s.
    lemma_div_is_ordered(d * s * s, 100 * cc * s * s, dnm);
    assert(d * s * s <= 100 * cc * s * s) by (nonlinear_arith)
        requires
            d <= 100 * cc,
            s == 1000000000,
    ;
    lemma_div_is_ordered_by_denominator(100 * cc * s * s, cc * s, dnm);
    assert(100 * cc * s * s == (100 * s) * (cc * s)) by (nonlinear_arith)
        requires
            s == 1000000000,
    ;
    lemma_div_by_multiple(100 * s, cc * s);
    assert(100 * cc * s * s / (cc * s) == 100 * s);
    assert(d * s * s / dnm <= 100 * s);
    // Lower bound: d * s * s >= dnm, so the quotient is at least 1.
    assert(d * s * s >= 100 * cc * s) by (nonlinear_arith)
        requires
            d >= cc,
            cc >= 1,
            s == 1000000000,
    ;
    assert(d * s * s >= dnm);
    lemma_div_is_ordered(dnm, d * s * s, dnm);
    lemma_div_by_multiple(1, dnm);
    assert(1 * dnm == dnm);
    assert(dnm / dnm == 1);
    assert(d * s * s / dnm >= 1);
}

/// Identical rating vectors on the overlap set have similarity exactly one
/// unit of the scale: agreeing on every commonly rated item, with at least
/// one item in common, forces the fixed-point cosine to `SIM_SCALE`.
pub proof fn lemma_identical_similarity(ts: Seq<(u32, u32)>, os: Seq<(u32, u32)>)
    requires
        unique_keys(ts),
        values_in_rating_range(ts),
        common_count(ts, os) > 0,
        forall|i: u32|
            #![trigger val_of(ts, i), val_of(os, i)]
            has_key(ts, i) && has_key(os, i) ==> val_of(ts, i) == val_of(os, i),
    ensures
        similarity_nanos(ts, os) == SIM_SCALE as int,
{
    lemma_identical_sums(ts, os);
    let d = dot_product(ts, os);
    let s = SIM_SCALE as int;
    assert(d >= 1);
    let nn = target_norm_sq(ts, os) * other_norm_sq(ts, os) * s * s;
    assert(nn == (d * s) * (d * s)) by (nonlinear_arith)
        requires
            nn == d * d * s * s,
    ;
    assert(is_sqrt(nn, d * s)) by (nonlinear_arith)
        requires
            nn == (d * s) * (d * s),
            d >= 1,
            s == 1000000000,
    ;
    lemma_sqrt_unique(nn, d * s);
    assert(d * s * s == s * (d * s)) by (nonlinear_arith);
    vstd::arithmetic::div_mod::lemma_div_by_multiple(s, d * s);
    assert(s * (d * s) / (d * s) == s);
}

/// On identical overlap the dot product equals both squared norms and counts
/// at least one per common item.
proof fn lemma_identical_sums(ts: Seq<(u32, u32)>, os: Seq<(u32, u32)>)
    requires
        unique_keys(ts),
        values_in_rating_range(ts),
        forall|i: u32|
            #![trigger val_of(ts, i), val_of(os, i)]
            has_key(ts, i) && has_key(os, i) ==> val_of(ts, i) == val_of(os, i),
    ensures
        dot_product(ts, os) == target_norm_sq(ts, os),
        dot_product(ts, os) == other_norm_sq(ts, os),
        dot_product(ts, os) >= common_count(ts, os),
        common_count(ts, os) >= 0,
    decreases ts.len(),
{
    if ts.len() > 0 {
        let rest = ts.drop_last();
        assert(forall|i: int| 0 <= i < rest.len() ==> #[trigger] rest[i] == ts[i]);
        assert forall|i: u32|
            #![trigger val_of(rest, i), val_of(os, i)]
            has_key(rest, i) && has_key(os, i) implies val_of(rest, i) == val_of(os, i) by {
            lemma_val_of_prefix(ts, i);
        }
        lemma_identical_sums(rest, os);
        let e = ts.last();
        if has_key(os, e.0) {
            assert(forall|m: int| 0 <= m < ts.len() - 1 ==> (#[trigger] ts[m]).0 != e.0);
            lemma_val_of_first(ts, e.0, ts.len() - 1);
            assert(val_of(ts, e.0) == e.1);
            assert(val_of(os, e.0) == e.1);
            assert(1 <= e.1 <= 10);
            assert((e.1 as int) * (e.1 as int) >= 1) by (nonlinear_arith)
                requires
                    e.1 >= 1,
            ;
        }
    }
}

/// One entry removed from the right-hand vector shifts the cross sum by that
/// entry's own contribution.
proof fn lemma_cross_last_removed(os: Seq<(u32, u32)>, ts: Seq<(u32, u32)>, g: spec_fn(int, int) -> int)
    requires
        ts.len() > 0,
        unique_keys(ts),
        unique_keys(os),
    ensures
        cross(os, ts, g) == cross(os, ts.drop_last(), g) + (if has_key(os, ts.last().0) {
            g(val_of(os, ts.last().0) as int, ts.last().1 as int)
        } else {
            0
        }),
    decreases os.len(),
{
    let e = ts.last();
    let tsr = ts.drop_last();
    assert(forall|i: int| 0 <= i < tsr.len() ==> #[trigger] tsr[i] == ts[i]);
    assert(forall|m: int| 0 <= m < ts.len() - 1 ==> (#[trigger] ts[m]).0 != e.0);
    lemma_val_of_first(ts, e.0, ts.len() - 1);
    if has_key(tsr, e.0) {
        let w = choose|i: int| 0 <= i < tsr.len() && (#[trigger] tsr[i]).0 == e.0;
        assert(false);
    }
    if os.len() == 0 {
    } else {
        let d = os.last();
        let osr = os.drop_last();
        assert(forall|i: int| 0 <= i < osr.len() ==> #[trigger] osr[i] == os[i]);
        lemma_cross_last_removed(osr, ts, g);
        if d.0 == e.0 {
            assert(forall|m: int| 0 <= m < os.len() - 1 ==> (#[trigger] os[m]).0 != d.0);
            lemma_val_of_first(os, d.0, os.len() - 1);
            assert(val_of(os, e.0) == d.1);
            if has_key(osr, e.0) {
                let w = choose|i: int| 0 <= i < osr.len() && (#[trigger] osr[i]).0 == e.0;
                assert(false);
            }
            assert(has_key(ts, d.0));
            assert(val_of(ts, d.0) == e.1);
            assert(has_key(os, e.0)) by {
                assert(os[os.len() - 1].0 == e.0);
            }
        } else {
            if has_key(ts, d.0) {
                let w = choose|i: int| 0 <= i < ts.len() && (#[trigger] ts[i]).0 == d.0;
                assert(w < ts.len() - 1);
                assert(tsr[w].0 == d.0);
                lemma_val_of_prefix(ts, d.0);
            }
            if has_key(tsr, d.0) {
                let w = choose|i: int| 0 <= i < tsr.len() && (#[trigger] tsr[i]).0 == d.0;
                assert(ts[w].0 == d.0);
                lemma_val_of_prefix(ts, d.0);
            }
            if has_key(os, e.0) {
                let w = choose|i: int| 0 <= i < os.len() && (#[trigger] os[i]).0 == e.0;
                assert(w < os.len() - 1);
                assert(osr[w].0 == e.0);
                lemma_val_of_prefix(os, e.0);
            }
            if has_key(osr, e.0) {
                let w = choose|i: int| 0 <= i < osr.len() && (#[trigger] osr[i]).0 == e.0;
                assert(os[w].0 == e.0);
                lemma_val_of_prefix(os, e.0);
            }
        }
    }
}

/// The cross sum is symmetric: folding `f` over the overlap from the target
/// side equals folding the argument-swapped function from the other side.
proof fn lemma_cross_swap(
    ts: Seq<(u32, u32)>,
    os: Seq<(u32, u32)>,
    f: spec_fn(int, int) -> int,
    g: spec_fn(int, int) -> int,
)
    requires
        unique_keys(ts),
        unique_keys(os),
        forall|a: int, b: int| #[trigger] g(a, b) == f(b, a),
    ensures
        cross(ts, os, f) == cross(os, ts, g),
    decreases ts.len(),
{
    if ts.len() == 0 {
        assert forall|osx: Seq<(u32, u32)>|
            osx.len() <= os.len() implies #[trigger] cross(osx, ts, g) == 0 by {
            lemma_cross_empty_right(osx, ts, g);
        }
        assert(cross(os, ts, g) == 0);
    } else {
        let rest = ts.drop_last();
        assert(forall|i: int| 0 <= i < rest.len() ==> #[trigger] rest[i] == ts[i]);
        lemma_cross_swap(rest, os, f, g);
        lemma_cross_last_removed(os, ts, g);
    }
}

/// Folding anything over an empty right-hand vector gives zero.
proof fn lemma_cross_empty_right(os: Seq<(u32, u32)>, ts: Seq<(u32, u32)>, g: spec_fn(int, int) -> int)
    requires
        ts.len() == 0,
    ensures
        cross(os, ts, g) == 0,
    decreases os.len(),
{
    if os.len() > 0 {
        lemma_cross_empty_right(os.drop_last(), ts, g);
        if has_key(ts, os.last().0) {
            let w = choose|i: int| 0 <= i < ts.len() && (#[trigger] ts[i]).0 == os.last().0;
            assert(false);
        }
    }
}

/// Similarity is symmetric in value: computing it with the roles of the two
/// users exchanged yields the same scalar, though the computation itself runs
/// from the target's side. The item overlap is symmetric as well.
pub proof fn lemma_similarity_symmetric(ts: Seq<(u32, u32)>, os: Seq<(u32, u32)>)
    requires
        unique_keys(ts),
        unique_keys(os),
    ensures
        common_count(ts, os) == common_count(os, ts),
        dot_product(ts, os) == dot_product(os, ts),
        target_norm_sq(ts, os) == other_norm_sq(os, ts),
        other_norm_sq(ts, os) == target_norm_sq(os, ts),
        similarity_nanos(ts, os) == similarity_nanos(os, ts),
{
    let fmul = (|a: int, b: int| a * b);
    let faa = (|a: int, b: int| a * a);
    let fbb = (|a: int, b: int| b * b);
    let fone = (|a: int, b: int| 1);
    assert(forall|a: int, b: int| #[trigger] fmul(a, b) == fmul(b, a));
    assert(forall|a: int, b: int| #[trigger] fbb(a, b) == faa(b, a));
    assert(forall|a: int, b: int| #[trigger] faa(a, b) == fbb(b, a));
    assert(forall|a: int, b: int| #[trigger] fone(a, b) == fone(b, a));
    lemma_cross_swap(ts, os, fmul, fmul);
    lemma_cross_swap(ts, os, faa, fbb);
    lemma_cross_swap(ts, os, fbb, faa);
    lemma_cross_swap(ts, os, fone, fone);
    let a = target_norm_sq(ts, os);
    let b = other_norm_sq(ts, os);
    assert(a * b * (SIM_SCALE as int) * (SIM_SCALE as int) == b * a * (SIM_SCALE as int) * (
    SIM_SCALE as int)) by (nonlinear_arith);
}

} // verus!
