//! Score aggregation, popularity filtering, ranking and diversified
//! selection: the recommendation half of the pipeline.
use vstd::prelude::*;

use crate::data_processing::{
    lemma_store_ratings_wf, name_in, name_key, ItemMembers, ItemNames, RatingStore,
};
use crate::pairs::{
    has_key, lemma_val_of_first, lemma_val_of_in_range, lemma_val_of_push, unique_keys, val_of,
    values_in_rating_range,
};
use crate::similarity::{SimilarityMap, SIM_CAP};
use vstd::arithmetic::div_mod::{lemma_div_by_multiple, lemma_div_is_ordered};
use vstd::seq_lib::lemma_multiset_commutative;

verus! {

broadcast use vstd::seq_lib::group_to_multiset_ensures;

/// One unit of predicted score: reported scores are in units of
/// `1 / SCORE_SCALE` of a rating point.
pub const SCORE_SCALE: i64 = 1000000;

/// Minimum popularity (exclusive) an item needs to be recommended.
pub const DEFAULT_POPULARITY_THRESHOLD: u32 = 5000;

/// Candidates kept for randomized selection.
pub const DEFAULT_POOL_SIZE: usize = 30;

/// Recommendations returned.
pub const DEFAULT_PICK_COUNT: usize = 10;

/// Tuning knobs of the recommendation engine.
pub struct RecommendConfig {
    pub popularity_threshold: u32,
    pub pool_size: usize,
    pub pick_count: usize,
}

impl Default for RecommendConfig {
    /// The configuration the recommender runs with when none is given.
    fn default() -> (r: RecommendConfig)
        ensures
            r.popularity_threshold == DEFAULT_POPULARITY_THRESHOLD,
            r.pool_size == DEFAULT_POOL_SIZE,
            r.pick_count == DEFAULT_PICK_COUNT,
    {
        RecommendConfig {
            popularity_threshold: DEFAULT_POPULARITY_THRESHOLD,
            pool_size: DEFAULT_POOL_SIZE,
            pick_count: DEFAULT_PICK_COUNT,
        }
    }
}

/// What one similarity entry adds to the weight of `it`: its (positive)
/// similarity if that neighbour rated `it`, else nothing.
pub open spec fn pair_weight(v: i64, ors: Seq<(u32, u32)>, it: u32) -> int {
    if v > 0 && has_key(ors, it) {
        v as int
    } else {
        0
    }
}

/// What one similarity entry adds to the score of `it`: similarity times the
/// neighbour's rating.
pub open spec fn pair_score(v: i64, ors: Seq<(u32, u32)>, it: u32) -> int {
    if v > 0 && has_key(ors, it) {
        (v as int) * (val_of(ors, it) as int)
    } else {
        0
    }
}

/// Total similarity weight behind `it`: the sum, over the similarity entries
/// with positive similarity whose user rated `it`, of that similarity.
pub open spec fn weight_sum(sims: Seq<(u32, i64)>, store: RatingStore, it: u32) -> int
    decreases sims.len(),
{
    if sims.len() == 0 {
        0
    } else {
        weight_sum(sims.drop_last(), store, it) + pair_weight(
            sims.last().1,
            store.ratings_of(sims.last().0),
            it,
        )
    }
}

/// Total weighted score behind `it`: the sum of similarity times rating over
/// the same entries.
pub open spec fn score_sum(sims: Seq<(u32, i64)>, store: RatingStore, it: u32) -> int
    decreases sims.len(),
{
    if sims.len() == 0 {
        0
    } else {
        score_sum(sims.drop_last(), store, it) + pair_score(
            sims.last().1,
            store.ratings_of(sims.last().0),
            it,
        )
    }
}

/// The predicted score of `it`: the similarity-weighted average of the
/// neighbours' ratings, in units of `1 / SCORE_SCALE` of a rating point.
pub open spec fn predicted_score(sims: Seq<(u32, i64)>, store: RatingStore, it: u32) -> int {
    score_sum(sims, store, it) * (SCORE_SCALE as int) / weight_sum(sims, store, it)
}

/// Is `it` a scoring candidate: not yet rated by the target, and carried by
/// at least one neighbour with positive similarity?
pub open spec fn candidate(
    sims: Seq<(u32, i64)>,
    store: RatingStore,
    target: u32,
    it: u32,
) -> bool {
    &&& !has_key(store.ratings_of(target), it)
    &&& weight_sum(sims, store, it) > 0
}

/// Is `it` recommendable: a candidate whose popularity strictly exceeds the
/// threshold? An item with no recorded popularity counts 0 members and is
/// never recommendable.
pub open spec fn eligible(
    sims: Seq<(u32, i64)>,
    store: RatingStore,
    target: u32,
    members: ItemMembers,
    threshold: u32,
    it: u32,
) -> bool {
    &&& candidate(sims, store, target, it)
    &&& members.members_of(it) > threshold
}

/// May `a` stand before `b` in the ranking: strictly higher score first, ties
/// broken by ascending item identifier.
pub open spec fn ranked_before(a: (u32, u64), b: (u32, u64)) -> bool {
    a.1 > b.1 || (a.1 == b.1 && a.0 <= b.0)
}

/// Does some entry of `s` carry the item `it`?
pub open spec fn seq_has_item(s: Seq<(u32, u64)>, it: u32) -> bool {
    exists|p: int| 0 <= p < s.len() && (#[trigger] s[p]).0 == it
}

/// `ranked` is the full ranking of the recommendable items: exactly the
/// eligible items, each with its exact predicted score, in descending score
/// order with ties broken by ascending item identifier.
pub open spec fn is_ranking(
    sims: Seq<(u32, i64)>,
    store: RatingStore,
    target: u32,
    members: ItemMembers,
    threshold: u32,
    ranked: Seq<(u32, u64)>,
) -> bool {
    &&& forall|p: int, q: int|
        0 <= p < q < ranked.len() ==> ranked_before(#[trigger] ranked[p], #[trigger] ranked[q])
    &&& forall|p: int, q: int|
        0 <= p < q < ranked.len() ==> (#[trigger] ranked[p]).0 != (#[trigger] ranked[q]).0
    &&& forall|p: int|
        #![trigger ranked[p]]
        0 <= p < ranked.len() ==> eligible(sims, store, target, members, threshold, ranked[p].0)
            && ranked[p].1 == predicted_score(sims, store, ranked[p].0)
    &&& forall|it: u32|
        eligible(sims, store, target, members, threshold, it) ==> #[trigger] seq_has_item(
            ranked,
            it,
        )
}

/// The display names of the given items, in order, items without a recorded
/// name silently dropped.
pub open spec fn resolved_names(names: Seq<(u32, String)>, items: Seq<(u32, u64)>) -> Seq<
    Seq<char>,
>
    decreases items.len(),
{
    if items.len() == 0 {
        Seq::empty()
    } else {
        resolved_names(names, items.drop_last()) + if name_key(names, items.last().0) {
            seq![name_in(names, items.last().0)]
        } else {
            Seq::empty()
        }
    }
}

/// With no similarity entries at all there are no candidates: any ranking of
/// an empty similarity table is empty, so the recommender returns the empty
/// sequence rather than failing.
pub proof fn lemma_empty_similarities_rank_empty(
    store: RatingStore,
    target: u32,
    members: ItemMembers,
    threshold: u32,
    ranked: Seq<(u32, u64)>,
)
    requires
        is_ranking(Seq::<(u32, i64)>::empty(), store, target, members, threshold, ranked),
    ensures
        ranked.len() == 0,
{
    if ranked.len() > 0 {
        assert(eligible(
            Seq::<(u32, i64)>::empty(),
            store,
            target,
            members,
            threshold,
            ranked[0].0,
        ));
        assert(weight_sum(Seq::<(u32, i64)>::empty(), store, ranked[0].0) == 0);
    }
}

/// The aggregated sums are non-negative; the score lies between one and ten
/// times the weight, and the weight is at most the entry count times the cap.
pub proof fn lemma_sum_bounds(sims: Seq<(u32, i64)>, store: RatingStore, it: u32)
    requires
        store.wf(),
        forall|i: int| 0 <= i < sims.len() ==> -SIM_CAP <= (#[trigger] sims[i]).1 <= SIM_CAP,
    ensures
        0 <= weight_sum(sims, store, it),
        weight_sum(sims, store, it) <= sims.len() * (SIM_CAP as int),
        weight_sum(sims, store, it) <= score_sum(sims, store, it),
        score_sum(sims, store, it) <= 10 * weight_sum(sims, store, it),
    decreases sims.len(),
{
    if sims.len() > 0 {
        let rest = sims.drop_last();
        assert(forall|i: int| 0 <= i < rest.len() ==> #[trigger] rest[i] == sims[i]);
        lemma_sum_bounds(rest, store, it);
        let e = sims.last();
        let ors = store.ratings_of(e.0);
        let pw = pair_weight(e.1, ors, it);
        let ps = pair_score(e.1, ors, it);
        if e.1 > 0 && has_key(ors, it) {
            lemma_store_ratings_wf(store, e.0);
            lemma_val_of_in_range(ors, it);
            assert(pw <= ps && ps <= 10 * pw) by (nonlinear_arith)
                requires
                    pw == e.1 as int,
                    ps == (e.1 as int) * (val_of(ors, it) as int),
                    e.1 >= 1,
                    1 <= val_of(ors, it) <= 10,
            ;
        }
        assert(sims.len() * (SIM_CAP as int) == rest.len() * (SIM_CAP as int) + SIM_CAP as int)
            by (nonlinear_arith)
            requires
                sims.len() == rest.len() + 1,
        ;
    }
}

/// Two sorted candidate sequences with distinct items, consistent scores and
/// the same item membership are identical.
proof fn lemma_sorted_candidates_unique(r1: Seq<(u32, u64)>, r2: Seq<(u32, u64)>)
    requires
        forall|p: int, q: int|
            0 <= p < q < r1.len() ==> ranked_before(#[trigger] r1[p], #[trigger] r1[q]),
        forall|p: int, q: int|
            0 <= p < q < r2.len() ==> ranked_before(#[trigger] r2[p], #[trigger] r2[q]),
        forall|p: int, q: int|
            0 <= p < q < r1.len() ==> (#[trigger] r1[p]).0 != (#[trigger] r1[q]).0,
        forall|p: int, q: int|
            0 <= p < q < r2.len() ==> (#[trigger] r2[p]).0 != (#[trigger] r2[q]).0,
        forall|p: int, q: int|
            0 <= p < r1.len() && 0 <= q < r2.len() && (#[trigger] r1[p]).0 == (
            #[trigger] r2[q]).0 ==> r1[p].1 == r2[q].1,
        forall|it: u32| #[trigger] seq_has_item(r1, it) == seq_has_item(r2, it),
    ensures
        r1 == r2,
    decreases r1.len(),
{
    if r1.len() == 0 {
        if r2.len() > 0 {
            assert(seq_has_item(r2, r2[0].0));
            assert(seq_has_item(r1, r2[0].0));
            let w = choose|w: int| 0 <= w < r1.len() && (#[trigger] r1[w]).0 == r2[0].0;
            assert(false);
        }
        assert(r1 =~= r2);
    } else if r2.len() == 0 {
        assert(seq_has_item(r1, r1[0].0));
        assert(seq_has_item(r2, r1[0].0));
        let w = choose|w: int| 0 <= w < r2.len() && (#[trigger] r2[w]).0 == r1[0].0;
        assert(false);
    } else {
        let h1 = r1[0];
        let h2 = r2[0];
        assert(seq_has_item(r1, h1.0));
        assert(seq_has_item(r2, h1.0));
        assert(seq_has_item(r1, h2.0));
        assert(seq_has_item(r2, h2.0));
        let i = choose|i: int| 0 <= i < r2.len() && (#[trigger] r2[i]).0 == h1.0;
        let j = choose|j: int| 0 <= j < r1.len() && (#[trigger] r1[j]).0 == h2.0;
        assert(r2[i].1 == h1.1);
        assert(r1[j].1 == h2.1);
        assert(r2[i] == h1);
        assert(r1[j] == h2);
        if h1 != h2 {
            assert(i != 0 && j != 0);
            assert(ranked_before(h2, h1));
            assert(ranked_before(h1, h2));
            assert(h1.1 == h2.1 && h1.0 == h2.0);
            assert(false);
        }
        let t1 = r1.drop_first();
        let t2 = r2.drop_first();
        assert(forall|p: int| 0 <= p < t1.len() ==> #[trigger] t1[p] == r1[p + 1]);
        assert(forall|p: int| 0 <= p < t2.len() ==> #[trigger] t2[p] == r2[p + 1]);
        assert forall|it: u32| #[trigger] seq_has_item(t1, it) == seq_has_item(t2, it) by {
            if seq_has_item(t1, it) {
                let w = choose|w: int| 0 <= w < t1.len() && (#[trigger] t1[w]).0 == it;
                assert(r1[w + 1].0 == it);
                assert(it != h1.0);
                assert(seq_has_item(r1, it));
                assert(seq_has_item(r2, it));
                let w2 = choose|w2: int| 0 <= w2 < r2.len() && (#[trigger] r2[w2]).0 == it;
                assert(w2 != 0);
                assert(t2[w2 - 1].0 == it);
                assert(seq_has_item(t2, it));
            }
            if seq_has_item(t2, it) {
                let w = choose|w: int| 0 <= w < t2.len() && (#[trigger] t2[w]).0 == it;
                assert(r2[w + 1].0 == it);
                assert(it != h2.0);
                assert(seq_has_item(r2, it));
                assert(seq_has_item(r1, it));
                let w2 = choose|w2: int| 0 <= w2 < r1.len() && (#[trigger] r1[w2]).0 == it;
                assert(w2 != 0);
                assert(t1[w2 - 1].0 == it);
                assert(seq_has_item(t1, it));
            }
        }
        lemma_sorted_candidates_unique(t1, t2);
        assert(r1.len() == r2.len());
        assert forall|p: int| 0 <= p < r1.len() implies r1[p] == #[trigger] r2[p] by {
            if p > 0 {
                assert(t1[p - 1] == r1[p]);
                assert(t2[p - 1] == r2[p]);
            }
        }
        assert(r1 =~= r2);
    }
}

/// A full ranking of the recommendable items is unique: any two sequences
/// satisfying `is_ranking` for the same inputs are equal, so the ranking the
/// recommender draws from is completely determined.
pub proof fn lemma_ranking_unique(
    sims: Seq<(u32, i64)>,
    store: RatingStore,
    target: u32,
    members: ItemMembers,
    threshold: u32,
    r1: Seq<(u32, u64)>,
    r2: Seq<(u32, u64)>,
)
    requires
        is_ranking(sims, store, target, members, threshold, r1),
        is_ranking(sims, store, target, members, threshold, r2),
    ensures
        r1 == r2,
{
    assert forall|it: u32| #[trigger] seq_has_item(r1, it) == seq_has_item(r2, it) by {
        if seq_has_item(r1, it) {
            let w = choose|w: int| 0 <= w < r1.len() && (#[trigger] r1[w]).0 == it;
        }
        if seq_has_item(r2, it) {
            let w = choose|w: int| 0 <= w < r2.len() && (#[trigger] r2[w]).0 == it;
        }
    }
    lemma_sorted_candidates_unique(r1, r2);
}

/// A duplicated entry counts at least twice in the multiset.
proof fn lemma_dup_count(s: Seq<(u32, u64)>, p: int, q: int)
    requires
        0 <= p < q < s.len(),
        s[p] == s[q],
    ensures
        s.to_multiset().count(s[p]) >= 2,
{
    let t = s.remove(q);
    assert(t.to_multiset() =~= s.to_multiset().remove(s[q]));
    assert(t[p] == s[p]);
    assert(t.contains(t[p]));
    assert(t.to_multiset().count(s[p]) > 0);
}

/// An entry counting at least twice occurs at two distinct positions.
proof fn lemma_count2_dup(s: Seq<(u32, u64)>, x: (u32, u64))
    requires
        s.to_multiset().count(x) >= 2,
    ensures
        exists|p: int, q: int| 0 <= p < q < s.len() && (#[trigger] s[p]) == x && (#[trigger] s[q])
            == x,
{
    assert(s.to_multiset().count(x) > 0);
    assert(s.contains(x));
    let i = choose|i: int| 0 <= i < s.len() && s[i] == x;
    let t = s.remove(i);
    assert(t.to_multiset() =~= s.to_multiset().remove(s[i]));
    assert(t.to_multiset().count(x) > 0);
    assert(t.contains(x));
    let j = choose|j: int| 0 <= j < t.len() && t[j] == x;
    if j < i {
        assert(s[j] == t[j]);
        assert(0 <= j < i < s.len() && s[j] == x && s[i] == x);
    } else {
        assert(s[j + 1] == t[j]);
        assert(0 <= i < j + 1 < s.len() && s[i] == x && s[j + 1] == x);
    }
}

/// A prefix of a sequence is a sub-multiset of it.
proof fn lemma_take_submultiset(s: Seq<(u32, u64)>, n: int)
    requires
        0 <= n <= s.len(),
    ensures
        s.take(n).to_multiset().subset_of(s.to_multiset()),
{
    assert(s =~= s.take(n) + s.skip(n));
    lemma_multiset_commutative(s.take(n), s.skip(n));
    assert((s.take(n) + s.skip(n)).to_multiset() == s.take(n).to_multiset().add(
        s.skip(n).to_multiset(),
    ));
    assert(s.to_multiset() == (s.take(n) + s.skip(n)).to_multiset());
    assert forall|x: (u32, u64)|
        s.take(n).to_multiset().count(x) <= s.to_multiset().count(x) by {
        assert(s.to_multiset().count(x) == s.take(n).to_multiset().count(x) + s.skip(
            n,
        ).to_multiset().count(x));
    }
}

/// Index of the accumulator entry of `it`, if one exists.
fn find_acc(acc: &Vec<(u32, i128, i128)>, it: u32) -> (r: Option<usize>)
    ensures
        r is Some == exists|p: int| 0 <= p < acc@.len() && (#[trigger] acc@[p]).0 == it,
        r matches Some(p) ==> 0 <= p < acc@.len() && acc@[p as int].0 == it,
{
    let n = acc.len();
    let mut i: usize = 0;
    while i < n
        invariant
            n == acc@.len(),
            0 <= i <= n,
            forall|m: int| 0 <= m < i ==> (#[trigger] acc@[m]).0 != it,
        decreases n - i,
    {
        if acc[i].0 == it {
            return Some(i);
        }
        i += 1;
    }
    None
}

/// Exec comparison deciding `ranked_before`.
fn cmp_ranked_before(a: (u32, u64), b: (u32, u64)) -> (r: bool)
    ensures
        r == ranked_before(a, b),
{
    a.1 > b.1 || (a.1 == b.1 && a.0 <= b.0)
}

/// Sort candidates by descending score, ties by ascending item identifier.
fn sort_candidates(v: &mut Vec<(u32, u64)>)
    ensures
        final(v)@.len() == old(v)@.len(),
        final(v)@.to_multiset() == old(v)@.to_multiset(),
        forall|p: int, q: int|
            0 <= p < q < final(v)@.len() ==> ranked_before(
                #[trigger] final(v)@[p],
                #[trigger] final(v)@[q],
            ),
{
    let n = v.len();
    let mut i: usize = 1;
    while i < n
        invariant
            n == v@.len(),
            1 <= i <= n || (n == 0 && i == 1),
            v@.to_multiset() == old(v)@.to_multiset(),
            forall|p: int, q: int|
                0 <= p < q < i ==> ranked_before(#[trigger] v@[p], #[trigger] v@[q]),
        decreases n - i,
    {
        let mut j: usize = i;
        while j > 0 && !cmp_ranked_before(v[j - 1], v[j])
            invariant
                n == v@.len(),
                0 <= j <= i < n,
                v@.to_multiset() == old(v)@.to_multiset(),
                forall|p: int, q: int|
                    0 <= p < q <= i && q != j ==> ranked_before(#[trigger] v@[p], #[trigger] v@[q]),
                forall|q: int| j < q <= i ==> ranked_before(#[trigger] v@[j as int], v@[q]),
            decreases j,
        {
            let x = v[j - 1];
            let y = v[j];
            let ghost before = v@;
            v.set(j - 1, y);
            v.set(j, x);
            proof {
                assert(v@ =~= before.update(j - 1, y).update(j as int, x));
                assert(v@.to_multiset() =~= before.to_multiset()) by {
                    vstd::seq_lib::to_multiset_update(before, j - 1, y);
                    vstd::seq_lib::to_multiset_update(before.update(j - 1, y), j as int, x);
                    assert(before.update(j - 1, y)[j as int] == before[j as int]);
                    assert(v@.to_multiset() =~= before.to_multiset().insert(y).remove(
                        before[j - 1],
                    ).insert(x).remove(before[j as int]));
                    assert(before.to_multiset().insert(y).remove(x).insert(x).remove(y)
                        =~= before.to_multiset());
                }
                assert(ranked_before(x, y) || ranked_before(y, x));
            }
            j -= 1;
        }
        i += 1;
    }
}

/// Relies on rand's `SliceRandom::shuffle` for slices (a Fisher-Yates
/// shuffle): it permutes the slice in place, so the candidates afterwards are
/// the same multiset as before.
#[verifier::external_body]
fn shuffle_candidates(v: &mut Vec<(u32, u64)>, rng: &mut rand::rngs::StdRng)
    ensures
        final(v)@.len() == old(v)@.len(),
        final(v)@.to_multiset() == old(v)@.to_multiset(),
{
    rand::seq::SliceRandom::shuffle(v.as_mut_slice(), rng);
}

/// Relies on rand's `StdRng`: the request-scoped, seedable random generator
/// the caller hands in; declared opaquely so verified code can thread it
/// through to the shuffle.
#[verifier::external_type_specification]
#[verifier::external_body]
pub struct ExStdRng(rand::rngs::StdRng);

/// Resolve each selected item to its display name, dropping items the name
/// table does not know.
fn resolve_names(names: &ItemNames, sel: &Vec<(u32, u64)>) -> (r: Vec<String>)
    ensures
        r.deep_view() == resolved_names(names.table(), sel@),
{
    let n = sel.len();
    let mut out: Vec<String> = Vec::new();
    let mut i: usize = 0;
    proof {
        assert(sel@.take(0) =~= Seq::<(u32, u64)>::empty());
        assert(out.deep_view() =~= resolved_names(names.table(), sel@.take(0)));
    }
    while i < n
        invariant
            n == sel@.len(),
            0 <= i <= n,
            out.deep_view() == resolved_names(names.table(), sel@.take(i as int)),
        decreases n - i,
    {
        let it = sel[i].0;
        let ghost dv0 = out.deep_view();
        let ghost tki = sel@.take(i as int);
        let ghost tki1 = sel@.take(i as int + 1);
        proof {
            assert(tki1.drop_last() =~= tki);
            assert(tki1.last() == sel@[i as int]);
        }
        match names.get_name(it) {
            Some(nm) => {
                let ghost nmv = nm@;
                out.push(nm);
                proof {
                    assert(out.deep_view() =~= dv0 + seq![nmv]);
                    assert(resolved_names(names.table(), tki1) == resolved_names(
                        names.table(),
                        tki,
                    ) + seq![name_in(names.table(), it)]);
                }
            },
            None => {
                proof {
                    assert(resolved_names(names.table(), tki1) =~= resolved_names(
                        names.table(),
                        tki,
                    ));
                }
            },
        }
        i += 1;
    }
    proof {
        assert(sel@.take(n as int) =~= sel@);
    }
    out
}

/// The full recommendation pass: aggregate the neighbours' ratings into
/// predicted scores for the items the target has not rated, rank them by
/// descending score (ties by ascending item identifier), drop the items whose
/// popularity does not strictly exceed the threshold, and select from the top
/// of the ranking — in ranked order when the candidates fit the pool, and as
/// a random draw from the top pool otherwise. Selected items are resolved to
/// display names; items without a name are silently dropped.
pub fn recommend_anime(
    user_ratings: &RatingStore,
    similarities: &SimilarityMap,
    target_user_id: u32,
    anime_id_to_name: &ItemNames,
    anime_id_to_members: &ItemMembers,
    config: &RecommendConfig,
    rng: &mut rand::rngs::StdRng,
) -> (r: Vec<String>)
    requires
        user_ratings.wf(),
        similarities.wf(),
        forall|k: int|
            0 <= k < similarities.table().len() && (#[trigger] similarities.table()[k]).1 > 0
                ==> user_ratings.contains_user(similarities.table()[k].0),
    ensures
        exists|ranked: Seq<(u32, u64)>, chosen: Seq<(u32, u64)>|
            {
                &&& #[trigger] is_ranking(
                    similarities.table(),
                    *user_ratings,
                    target_user_id,
                    *anime_id_to_members,
                    config.popularity_threshold,
                    ranked,
                )
                &&& r.deep_view() == #[trigger] resolved_names(anime_id_to_name.table(), chosen)
                &&& if ranked.len() <= config.pool_size {
                    chosen == ranked.take(
                        if config.pick_count <= ranked.len() {
                            config.pick_count as int
                        } else {
                            ranked.len() as int
                        },
                    )
                } else {
                    chosen.to_multiset().subset_of(
                        ranked.take(config.pool_size as int).to_multiset(),
                    ) && chosen.len() == (
                    if config.pick_count <= config.pool_size {
                        config.pick_count as int
                    } else {
                        config.pool_size as int
                    })
                }
            },
{
    let ghost st = similarities.table();
    let ghost store = *user_ratings;
    let ghost tr = user_ratings.ratings_of(target_user_id);
    let mut acc: Vec<(u32, i128, i128)> = Vec::new();
    let ns = similarities.entries.len();
    let mut k: usize = 0;
    proof {
        assert(st.take(0) =~= Seq::<(u32, i64)>::empty());
        assert forall|it: u32| #[trigger] weight_sum(st.take(0), store, it) == 0
            && score_sum(st.take(0), store, it) == 0 by {}
    }
    while k < ns
        invariant
            user_ratings.wf(),
            similarities.wf(),
            forall|kk: int|
                0 <= kk < st.len() && (#[trigger] st[kk]).1 > 0 ==> store.contains_user(st[kk].0),
            st == similarities.table(),
            store == *user_ratings,
            tr == store.ratings_of(target_user_id),
            ns == st.len(),
            0 <= k <= ns,
            forall|p: int|
                #![trigger acc@[p]]
                0 <= p < acc@.len() ==> {
                    let e = acc@[p];
                    &&& !has_key(tr, e.0)
                    &&& e.2 == weight_sum(st.take(k as int), store, e.0)
                    &&& e.1 == score_sum(st.take(k as int), store, e.0)
                    &&& e.2 >= 1
                },
            forall|p: int, q: int|
                0 <= p < q < acc@.len() ==> (#[trigger] acc@[p]).0 != (#[trigger] acc@[q]).0,
            forall|it: u32|
                !has_key(tr, it) && #[trigger] weight_sum(st.take(k as int), store, it) > 0
                    ==> exists|p: int| 0 <= p < acc@.len() && (#[trigger] acc@[p]).0 == it,
        decreases ns - k,
    {
        let u = similarities.entries[k].0;
        let v = similarities.entries[k].1;
        let ghost stk = st.take(k as int);
        let ghost stk1 = st.take(k as int + 1);
        proof {
            assert(stk1.drop_last() =~= stk);
            assert(stk1.last() == st[k as int]);
            assert(st[k as int] == (u, v));
            assert(-SIM_CAP <= v <= SIM_CAP);
            assert forall|i: int|
                0 <= i < stk.len() implies -SIM_CAP <= (#[trigger] stk[i]).1 <= SIM_CAP by {
                assert(stk[i] == st[i]);
            }
        }
        if v > 0 {
            proof {
                assert(store.contains_user(u));
            }
            let ri = match user_ratings.find_user_row(u) {
                Some(ri) => ri,
                None => {
                    proof {
                        assert(false);
                    }
                    0
                },
            };
            let ghost ors = store.ratings_of(u);
            let m = user_ratings.users[ri].items.len();
            let mut mm: usize = 0;
            proof {
                lemma_store_ratings_wf(store, u);
                assert(ors.take(0) =~= Seq::<(u32, u32)>::empty());
            }
            while mm < m
                invariant
                    user_ratings.wf(),
                    st == similarities.table(),
                    store == *user_ratings,
                    tr == store.ratings_of(target_user_id),
                    ns == st.len(),
                    0 <= k < ns,
                    st[k as int] == (u, v),
                    0 < v <= SIM_CAP,
                    ri < store.rows().len(),
                    ors == store.ratings_of(u),
                    ors == store.rows()[ri as int].items@,
                    m == ors.len(),
                    0 <= mm <= m,
                    unique_keys(ors),
                    values_in_rating_range(ors),
                    stk == st.take(k as int),
                    forall|i: int|
                        0 <= i < stk.len() ==> -SIM_CAP <= (#[trigger] stk[i]).1 <= SIM_CAP,
                    forall|p: int|
                        #![trigger acc@[p]]
                        0 <= p < acc@.len() ==> {
                            let e = acc@[p];
                            &&& !has_key(tr, e.0)
                            &&& e.2 == weight_sum(stk, store, e.0) + pair_weight(
                                v,
                                ors.take(mm as int),
                                e.0,
                            )
                            &&& e.1 == score_sum(stk, store, e.0) + pair_score(
                                v,
                                ors.take(mm as int),
                                e.0,
                            )
                            &&& e.2 >= 1
                        },
                    forall|p: int, q: int|
                        0 <= p < q < acc@.len() ==> (#[trigger] acc@[p]).0 != (
                        #[trigger] acc@[q]).0,
                    forall|it: u32|
                        !has_key(tr, it) && (#[trigger] weight_sum(stk, store, it)) + pair_weight(
                            v,
                            ors.take(mm as int),
                            it,
                        ) > 0 ==> exists|p: int|
                            0 <= p < acc@.len() && (#[trigger] acc@[p]).0 == it,
                decreases m - mm,
            {
                let it0 = user_ratings.users[ri].items[mm].0;
                let orat = user_ratings.users[ri].items[mm].1;
                let ghost accb = acc@;
                let ghost om = ors.take(mm as int);
                let ghost om1 = ors.take(mm as int + 1);
                proof {
                    assert(om1.drop_last() =~= om);
                    assert(om1.last() == ors[mm as int]);
                    assert(ors[mm as int] == (it0, orat));
                    assert(1 <= orat <= 10);
                    assert forall|mx: int| 0 <= mx < mm implies (#[trigger] om[mx]).0 != it0 by {
                        assert(om[mx] == ors[mx]);
                    }
                    assert(!has_key(om, it0));
                    assert forall|itx: u32|
                        itx != it0 implies pair_weight(v, om1, itx) == pair_weight(v, om, itx)
                        && pair_score(v, om1, itx) == pair_score(v, om, itx) by {
                        assert(om1 =~= om.push(ors[mm as int]));
                        lemma_val_of_push(om, ors[mm as int], itx);
                        if !has_key(om, itx) && has_key(om1, itx) {
                            let w = choose|w: int|
                                0 <= w < om1.len() && (#[trigger] om1[w]).0 == itx;
                            assert(w < mm ==> om[w].0 == itx);
                            assert(false);
                        }
                    }
                    assert(om1[mm as int].0 == it0);
                    assert(has_key(om1, it0));
                    lemma_val_of_first(om1, it0, mm as int);
                    assert(pair_weight(v, om1, it0) == v as int);
                    assert(pair_score(v, om1, it0) == (v as int) * (orat as int));
                    assert(pair_weight(v, om, it0) == 0 && pair_score(v, om, it0) == 0);
                }
                match user_ratings.get_rating(target_user_id, it0) {
                    Some(_) => {
                        proof {
                            assert(has_key(tr, it0));
                            assert forall|p: int|
                                0 <= p < acc@.len() implies (#[trigger] acc@[p]).0 != it0 by {}
                        }
                    },
                    None => {
                        proof {
                            assert(!has_key(tr, it0));
                            assert((v as int) * (orat as int) <= 10 * (SIM_CAP as int) && (
                            v as int) * (orat as int) >= 1) by (nonlinear_arith)
                                requires
                                    1 <= v <= SIM_CAP,
                                    1 <= orat <= 10,
                            ;
                            lemma_sum_bounds(stk, store, it0);
                            assert(stk.len() == k);
                        }
                        match find_acc(&acc, it0) {
                            Some(p) => {
                                let e = acc[p];
                                proof {
                                    assert(acc@[p as int] == e);
                                    assert(e.0 == it0);
                                    assert(e.2 == weight_sum(stk, store, it0) + pair_weight(
                                        v,
                                        om,
                                        it0,
                                    ));
                                    assert(e.2 == weight_sum(stk, store, it0));
                                    assert(e.1 == score_sum(stk, store, it0));
                                    lemma_sum_bounds(stk, store, it0);
                                    assert(e.1 <= 10 * ((k as int) * (SIM_CAP as int)));
                                    assert(e.2 <= (k as int) * (SIM_CAP as int));
                                }
                                let ghost acc0 = acc@;
                                let newe = (
                                    it0,
                                    e.1 + (v as i128) * (orat as i128),
                                    e.2 + (v as i128),
                                );
                                acc.set(p, newe);
                                proof {
                                    assert(acc@ =~= acc0.update(p as int, newe));
                                    assert forall|w: int|
                                        0 <= w < acc@.len() && w != p implies #[trigger] acc@[w]
                                        == acc0[w] by {}
                                    assert(acc@[p as int] == newe);
                                    assert(newe.2 == weight_sum(stk, store, it0) + pair_weight(
                                        v,
                                        om1,
                                        it0,
                                    ));
                                    assert(newe.1 == score_sum(stk, store, it0) + pair_score(
                                        v,
                                        om1,
                                        it0,
                                    ));
                                }
                            },
                            None => {
                                proof {
                                    assert(weight_sum(stk, store, it0) == 0) by {
                                        if weight_sum(stk, store, it0) > 0 {
                                            assert(weight_sum(stk, store, it0) + pair_weight(
                                                v,
                                                om,
                                                it0,
                                            ) > 0);
                                            assert(false);
                                        }
                                    }
                                    assert(score_sum(stk, store, it0) == 0);
                                }
                                let ghost acc0 = acc@;
                                let newe = (it0, (v as i128) * (orat as i128), v as i128);
                                acc.push(newe);
                                proof {
                                    assert(acc@ =~= acc0.push(newe));
                                    assert(acc@[acc0.len() as int] == newe);
                                    assert forall|p: int, q: int|
                                        0 <= p < q < acc@.len() implies (#[trigger] acc@[p]).0 != (
                                    #[trigger] acc@[q]).0 by {
                                        if q == acc0.len() {
                                            assert(acc@[p] == acc0[p]);
                                        }
                                    }
                                }
                            },
                        }
                    },
                }
                mm += 1;
                proof {
                    assert forall|it: u32|
                        !has_key(tr, it) && (#[trigger] weight_sum(stk, store, it)) + pair_weight(
                            v,
                            ors.take(mm as int),
                            it,
                        ) > 0 implies exists|p: int|
                        0 <= p < acc@.len() && (#[trigger] acc@[p]).0 == it by {
                        if it != it0 {
                            assert(pair_weight(v, ors.take(mm as int), it) == pair_weight(
                                v,
                                om,
                                it,
                            ));
                            let pp = choose|pp: int|
                                0 <= pp < accb.len() && (#[trigger] accb[pp]).0 == it;
                            assert(acc@[pp] == accb[pp]);
                        }
                    }
                }
            }
            proof {
                assert(ors.take(m as int) =~= ors);
                assert forall|it: u32|
                    #[trigger] weight_sum(stk1, store, it) == weight_sum(stk, store, it)
                        + pair_weight(v, ors, it) by {}
                assert forall|it: u32|
                    #[trigger] score_sum(stk1, store, it) == score_sum(stk, store, it)
                        + pair_score(v, ors, it) by {}
            }
        } else {
            proof {
                assert forall|it: u32|
                    #[trigger] weight_sum(stk1, store, it) == weight_sum(stk, store, it) by {}
                assert forall|it: u32|
                    #[trigger] score_sum(stk1, store, it) == score_sum(stk, store, it) by {}
            }
        }
        k += 1;
    }
    proof {
        assert(st.take(ns as int) =~= st);
    }
    // Normalization: predicted score of each candidate, in fixed point.
    let mut cand: Vec<(u32, u64)> = Vec::new();
    let na = acc.len();
    let mut p: usize = 0;
    while p < na
        invariant
            user_ratings.wf(),
            st == similarities.table(),
            store == *user_ratings,
            tr == store.ratings_of(target_user_id),
            similarities.wf(),
            ns == st.len(),
            na == acc@.len(),
            0 <= p <= na,
            cand@.len() == p,
            forall|w: int|
                #![trigger acc@[w]]
                0 <= w < acc@.len() ==> {
                    let e = acc@[w];
                    &&& !has_key(tr, e.0)
                    &&& e.2 == weight_sum(st, store, e.0)
                    &&& e.1 == score_sum(st, store, e.0)
                    &&& e.2 >= 1
                },
            forall|w: int, q: int|
                0 <= w < q < acc@.len() ==> (#[trigger] acc@[w]).0 != (#[trigger] acc@[q]).0,
            forall|it: u32|
                !has_key(tr, it) && #[trigger] weight_sum(st, store, it) > 0 ==> exists|w: int|
                    0 <= w < acc@.len() && (#[trigger] acc@[w]).0 == it,
            forall|w: int|
                #![trigger cand@[w]]
                0 <= w < p ==> {
                    let c = cand@[w];
                    &&& c.0 == acc@[w].0
                    &&& candidate(st, store, target_user_id, c.0)
                    &&& c.1 == predicted_score(st, store, c.0)
                },
        decreases na - p,
    {
        let e = acc[p];
        proof {
            assert(acc@[p as int] == e);
            lemma_sum_bounds(st, store, e.0);
            assert(e.1 <= 10 * ((ns as int) * (SIM_CAP as int)));
            let si = e.1 as int;
            let wi = e.2 as int;
            let q = SCORE_SCALE as int;
            assert(si * q <= (10 * wi) * q && si * q >= 0 && wi * q >= 0) by (nonlinear_arith)
                requires
                    0 <= wi <= si,
                    si <= 10 * wi,
                    q == 1000000,
            ;
            lemma_div_is_ordered(si * q, (10 * wi) * q, wi);
            assert((10 * wi) * q == (10 * q) * wi) by (nonlinear_arith);
            lemma_div_by_multiple(10 * q, wi);
            assert((10 * q) * wi / wi == 10 * q);
            assert(si * q / wi <= 10 * q);
            assert(si * q / wi >= 0) by {
                vstd::arithmetic::div_mod::lemma_div_is_ordered(0, si * q, wi);
            }
        }
        let sq = ((e.1 * (SCORE_SCALE as i128)) / e.2) as u64;
        cand.push((e.0, sq));
        p += 1;
    }
    // Popularity filter: keep the candidates strictly above the threshold.
    let mut filtered: Vec<(u32, u64)> = Vec::new();
    let mut q: usize = 0;
    while q < na
        invariant
            user_ratings.wf(),
            st == similarities.table(),
            store == *user_ratings,
            tr == store.ratings_of(target_user_id),
            na == cand@.len(),
            na == acc@.len(),
            0 <= q <= na,
            forall|w: int|
                #![trigger cand@[w]]
                0 <= w < na ==> {
                    let c = cand@[w];
                    &&& c.0 == acc@[w].0
                    &&& candidate(st, store, target_user_id, c.0)
                    &&& c.1 == predicted_score(st, store, c.0)
                },
            forall|w: int, x: int|
                0 <= w < x < acc@.len() ==> (#[trigger] acc@[w]).0 != (#[trigger] acc@[x]).0,
            forall|it: u32|
                !has_key(tr, it) && #[trigger] weight_sum(st, store, it) > 0 ==> exists|w: int|
                    0 <= w < acc@.len() && (#[trigger] acc@[w]).0 == it,
            forall|w: int|
                #![trigger filtered@[w]]
                0 <= w < filtered@.len() ==> {
                    let c = filtered@[w];
                    &&& eligible(
                        st,
                        store,
                        target_user_id,
                        *anime_id_to_members,
                        config.popularity_threshold,
                        c.0,
                    )
                    &&& c.1 == predicted_score(st, store, c.0)
                },
            forall|w: int|
                0 <= w < filtered@.len() ==> exists|x: int|
                    0 <= x < q && (#[trigger] filtered@[w]).0 == (#[trigger] cand@[x]).0,
            forall|w: int, x: int|
                0 <= w < x < filtered@.len() ==> (#[trigger] filtered@[w]).0 != (
                #[trigger] filtered@[x]).0,
            forall|x: int|
                0 <= x < q && anime_id_to_members.members_of((#[trigger] cand@[x]).0)
                    > config.popularity_threshold ==> seq_has_item(filtered@, cand@[x].0),
        decreases na - q,
    {
        let c = cand[q];
        let ghost f0 = filtered@;
        if anime_id_to_members.get(c.0) > config.popularity_threshold {
            filtered.push(c);
            proof {
                assert(filtered@ =~= f0.push(c));
                assert(filtered@[f0.len() as int] == c);
                assert(seq_has_item(filtered@, c.0));
                assert forall|w: int, x: int|
                    0 <= w < x < filtered@.len() implies (#[trigger] filtered@[w]).0 != (
                #[trigger] filtered@[x]).0 by {
                    if x == f0.len() {
                        assert(filtered@[w] == f0[w]);
                        let xx = choose|xx: int|
                            0 <= xx < q && (#[trigger] f0[w]).0 == (#[trigger] cand@[xx]).0;
                        assert(acc@[xx].0 != acc@[q as int].0);
                    }
                }
            }
        }
        q += 1;
        proof {
            assert forall|x: int|
                0 <= x < q && anime_id_to_members.members_of((#[trigger] cand@[x]).0)
                    > config.popularity_threshold implies seq_has_item(filtered@, cand@[x].0) by {
                if x < q - 1 {
                    let w = choose|w: int|
                        0 <= w < f0.len() && (#[trigger] f0[w]).0 == cand@[x].0;
                    assert(filtered@[w].0 == cand@[x].0);
                }
            }
        }
    }
    // Ranking: sort by descending score, ties by ascending item identifier.
    let ghost pre = filtered@;
    sort_candidates(&mut filtered);
    let ghost ranked = filtered@;
    proof {
        assert forall|w: int|
            #![trigger ranked[w]]
            0 <= w < ranked.len() implies eligible(
            st,
            store,
            target_user_id,
            *anime_id_to_members,
            config.popularity_threshold,
            ranked[w].0,
        ) && ranked[w].1 == predicted_score(st, store, ranked[w].0) by {
            assert(ranked.contains(ranked[w]));
            assert(ranked.to_multiset().count(ranked[w]) > 0);
            assert(pre.to_multiset().count(ranked[w]) > 0);
            assert(pre.contains(ranked[w]));
            let x = choose|x: int| 0 <= x < pre.len() && pre[x] == ranked[w];
        }
        assert forall|w1: int, w2: int|
            0 <= w1 < w2 < ranked.len() implies (#[trigger] ranked[w1]).0 != (
        #[trigger] ranked[w2]).0 by {
            if ranked[w1].0 == ranked[w2].0 {
                assert(ranked[w1].1 == predicted_score(st, store, ranked[w1].0));
                assert(ranked[w2].1 == predicted_score(st, store, ranked[w2].0));
                assert(ranked[w1] == ranked[w2]);
                lemma_dup_count(ranked, w1, w2);
                lemma_count2_dup(pre, ranked[w1]);
                let (p1, q1) = choose|p1: int, q1: int|
                    0 <= p1 < q1 < pre.len() && (#[trigger] pre[p1]) == ranked[w1] && (
                    #[trigger] pre[q1]) == ranked[w1];
                assert(pre[p1].0 == pre[q1].0);
                assert(false);
            }
        }
        assert forall|it: u32|
            eligible(
                st,
                store,
                target_user_id,
                *anime_id_to_members,
                config.popularity_threshold,
                it,
            ) implies #[trigger] seq_has_item(ranked, it) by {
            let w = choose|w: int| 0 <= w < acc@.len() && (#[trigger] acc@[w]).0 == it;
            assert(cand@[w].0 == it);
            assert(anime_id_to_members.members_of(cand@[w].0) > config.popularity_threshold);
            assert(seq_has_item(pre, it));
            let w2 = choose|w2: int| 0 <= w2 < pre.len() && (#[trigger] pre[w2]).0 == it;
            assert(pre.contains(pre[w2]));
            assert(pre.to_multiset().count(pre[w2]) > 0);
            assert(ranked.to_multiset().count(pre[w2]) > 0);
            assert(ranked.contains(pre[w2]));
            let w3 = choose|w3: int| 0 <= w3 < ranked.len() && ranked[w3] == pre[w2];
            assert(ranked[w3].0 == it);
        }
        assert(is_ranking(
            st,
            store,
            target_user_id,
            *anime_id_to_members,
            config.popularity_threshold,
            ranked,
        ));
    }
    // Diversified selection.
    let pool = config.pool_size;
    let pick = config.pick_count;
    if filtered.len() > pool {
        filtered.truncate(pool);
        proof {
            assert(filtered@ =~= ranked.take(pool as int));
        }
        shuffle_candidates(&mut filtered, rng);
        let ghost shuffled = filtered@;
        filtered.truncate(pick);
        let ghost chosen = filtered@;
        proof {
            if pick <= pool {
                assert(chosen =~= shuffled.take(pick as int));
                lemma_take_submultiset(shuffled, pick as int);
            } else {
                assert(chosen == shuffled);
                assert(shuffled.take(shuffled.len() as int) =~= shuffled);
                lemma_take_submultiset(shuffled, shuffled.len() as int);
            }
            assert(chosen.to_multiset().subset_of(ranked.take(pool as int).to_multiset()));
        }
        let out = resolve_names(anime_id_to_name, &filtered);
        proof {
            assert(out.deep_view() == resolved_names(anime_id_to_name.table(), chosen));
        }
        out
    } else {
        filtered.truncate(pick);
        let ghost chosen = filtered@;
        proof {
            if pick <= ranked.len() as usize {
                assert(chosen =~= ranked.take(pick as int));
            } else {
                assert(chosen == ranked);
                assert(chosen =~= ranked.take(ranked.len() as int));
            }
        }
        let out = resolve_names(anime_id_to_name, &filtered);
        proof {
            assert(out.deep_view() == resolved_names(anime_id_to_name.table(), chosen));
        }
        out
    }
}

} // verus!
