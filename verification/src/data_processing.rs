//! The in-memory data model: sparse rating store, item popularity table and
//! item name table, together with the builders that the ingestion layer calls.
use vstd::prelude::*;

use crate::pairs::{
    has_key, lemma_val_of_first, lemma_val_of_push, lemma_val_of_update_other, unique_keys,
    val_of, values_in_rating_range,
};

verus! {

/// A user may hold at most this many distinct rated items; the bound keeps
/// every intermediate similarity computation inside 128-bit integers.
pub const MAX_USER_ITEMS: usize = 50000000;

/// One row of the ingested rating table. A `rating` of -1 is the upstream
/// "unrated" sentinel; only values from 1 to 10 enter the store.
#[derive(Debug)]
pub struct RatingRecord {
    pub user_id: u32,
    pub anime_id: u32,
    pub rating: i32,
}

/// The ratings of one user: an association list from item to rating.
pub struct UserRow {
    pub user: u32,
    pub items: Vec<(u32, u32)>,
}

/// Sparse rating store: user -> (item -> rating). Users are unique, each
/// present user holds at least one rating, and all ratings lie in 1..=10.
pub struct RatingStore {
    pub users: Vec<UserRow>,
}

/// The ratings of `u` among `rows`: the item list of the first row with that
/// user, or the empty sequence if no row carries it.
pub open spec fn ratings_in_rows(rows: Seq<UserRow>, u: u32) -> Seq<(u32, u32)>
    decreases rows.len(),
{
    if rows.len() == 0 {
        Seq::empty()
    } else if rows[0].user == u {
        rows[0].items@
    } else {
        ratings_in_rows(rows.drop_first(), u)
    }
}

/// If row `i` is the first row of user `rows[i].user`, its item list is what
/// `ratings_in_rows` yields for that user.
pub proof fn lemma_ratings_first_row(rows: Seq<UserRow>, i: int)
    requires
        0 <= i < rows.len(),
        forall|m: int| 0 <= m < i ==> (#[trigger] rows[m]).user != rows[i].user,
    ensures
        ratings_in_rows(rows, rows[i].user) == rows[i].items@,
    decreases rows.len(),
{
    if i > 0 {
        lemma_ratings_first_row(rows.drop_first(), i - 1);
        assert(forall|m: int|
            0 <= m < rows.drop_first().len() ==> #[trigger] rows.drop_first()[m] == rows[m + 1]);
    }
}

/// A user carried by no row has the empty rating list.
pub proof fn lemma_ratings_absent(rows: Seq<UserRow>, u: u32)
    requires
        forall|m: int| 0 <= m < rows.len() ==> (#[trigger] rows[m]).user != u,
    ensures
        ratings_in_rows(rows, u) == Seq::<(u32, u32)>::empty(),
    decreases rows.len(),
{
    if rows.len() > 0 {
        assert(forall|m: int|
            0 <= m < rows.drop_first().len() ==> #[trigger] rows.drop_first()[m] == rows[m + 1]);
        lemma_ratings_absent(rows.drop_first(), u);
    }
}

/// Replacing row `i` by a row of the same user leaves every other user's
/// ratings unchanged.
pub proof fn lemma_ratings_update(rows: Seq<UserRow>, i: int, row: UserRow, w: u32)
    requires
        0 <= i < rows.len(),
        rows[i].user == row.user,
        w != row.user,
    ensures
        ratings_in_rows(rows.update(i, row), w) == ratings_in_rows(rows, w),
    decreases rows.len(),
{
    let t = rows.update(i, row);
    if i == 0 {
        assert(t.drop_first() =~= rows.drop_first());
    } else {
        assert(t[0] == rows[0]);
        assert(t.drop_first() =~= rows.drop_first().update(i - 1, row));
        lemma_ratings_update(rows.drop_first(), i - 1, row, w);
    }
}

/// Appending a row of another user leaves a user's ratings unchanged.
pub proof fn lemma_ratings_push(rows: Seq<UserRow>, row: UserRow, w: u32)
    requires
        w != row.user,
    ensures
        ratings_in_rows(rows.push(row), w) == ratings_in_rows(rows, w),
    decreases rows.len(),
{
    let t = rows.push(row);
    if rows.len() == 0 {
        assert(t[0] == row);
        assert(t.drop_first() =~= Seq::<UserRow>::empty());
        assert(ratings_in_rows(t, w) == ratings_in_rows(t.drop_first(), w));
        assert(ratings_in_rows(t.drop_first(), w) == Seq::<(u32, u32)>::empty());
    } else {
        assert(t[0] == rows[0]);
        assert(t.drop_first() =~= rows.drop_first().push(row));
        lemma_ratings_push(rows.drop_first(), row, w);
        if rows[0].user != w {
            assert(ratings_in_rows(t, w) == ratings_in_rows(t.drop_first(), w));
            assert(ratings_in_rows(rows, w) == ratings_in_rows(rows.drop_first(), w));
        }
    }
}

/// The ratings of any user are either empty or the item list of some row.
pub proof fn lemma_ratings_is_some_row(rows: Seq<UserRow>, u: u32)
    ensures
        ratings_in_rows(rows, u) == Seq::<(u32, u32)>::empty() || exists|m: int|
            0 <= m < rows.len() && (#[trigger] rows[m]).user == u && ratings_in_rows(rows, u)
                == rows[m].items@,
    decreases rows.len(),
{
    if rows.len() > 0 && rows[0].user != u {
        lemma_ratings_is_some_row(rows.drop_first(), u);
        if ratings_in_rows(rows.drop_first(), u) != Seq::<(u32, u32)>::empty() {
            let m = choose|m: int|
                0 <= m < rows.drop_first().len() && (#[trigger] rows.drop_first()[m]).user == u
                    && ratings_in_rows(rows.drop_first(), u) == rows.drop_first()[m].items@;
            assert(rows[m + 1] == rows.drop_first()[m]);
        }
    }
}

impl RatingStore {
    /// The rows of the store, as a sequence.
    pub open spec fn rows(self) -> Seq<UserRow> {
        self.users@
    }

    /// Is `u` present in the store?
    pub open spec fn contains_user(self, u: u32) -> bool {
        exists|i: int| 0 <= i < self.rows().len() && (#[trigger] self.rows()[i]).user == u
    }

    /// The ratings of `u`: item -> rating, as an association sequence.
    pub open spec fn ratings_of(self, u: u32) -> Seq<(u32, u32)> {
        ratings_in_rows(self.rows(), u)
    }

    /// Store invariant: unique users; every present user has at least one and
    /// at most `MAX_USER_ITEMS` ratings, with unique items and values in 1..=10.
    pub open spec fn wf(self) -> bool {
        &&& forall|i: int, j: int|
            0 <= i < j < self.rows().len() ==> (#[trigger] self.rows()[i]).user
                != (#[trigger] self.rows()[j]).user
        &&& forall|i: int|
            0 <= i < self.rows().len() ==> {
                &&& (#[trigger] self.rows()[i]).items@.len() >= 1
                &&& self.rows()[i].items@.len() <= MAX_USER_ITEMS
                &&& unique_keys(self.rows()[i].items@)
                &&& values_in_rating_range(self.rows()[i].items@)
            }
    }

    /// An empty store.
    pub fn new() -> (r: RatingStore)
        ensures
            r.wf(),
            r.rows().len() == 0,
            forall|u: u32| !r.contains_user(u),
    {
        RatingStore { users: Vec::new() }
    }

    /// Index of the row of `u`, if the store holds one.
    pub fn find_user_row(&self, u: u32) -> (r: Option<usize>)
        ensures
            r is Some == self.contains_user(u),
            r matches Some(i) ==> {
                &&& 0 <= i < self.rows().len()
                &&& self.rows()[i as int].user == u
                &&& forall|m: int| 0 <= m < i ==> (#[trigger] self.rows()[m]).user != u
                &&& self.ratings_of(u) == self.rows()[i as int].items@
            },
    {
        let n = self.users.len();
        let mut i: usize = 0;
        while i < n
            invariant
                n == self.rows().len(),
                0 <= i <= n,
                forall|m: int| 0 <= m < i ==> (#[trigger] self.rows()[m]).user != u,
            decreases n - i,
        {
            if self.users[i].user == u {
                proof {
                    lemma_ratings_first_row(self.rows(), i as int);
                }
                return Some(i);
            }
            i += 1;
        }
        proof {
            lemma_ratings_absent(self.rows(), u);
        }
        None
    }

    /// Is `u` present in the store?
    pub fn has_user(&self, u: u32) -> (b: bool)
        ensures
            b == self.contains_user(u),
    {
        self.find_user_row(u).is_some()
    }

    /// How many items `u` has rated.
    pub fn rating_count(&self, u: u32) -> (n: usize)
        ensures
            n == self.ratings_of(u).len(),
    {
        match self.find_user_row(u) {
            Some(i) => self.users[i].items.len(),
            None => {
                proof {
                    lemma_ratings_absent(self.rows(), u);
                }
                0
            },
        }
    }

    /// The rating `u` gave `item`, if any.
    pub fn get_rating(&self, u: u32, item: u32) -> (r: Option<u32>)
        ensures
            r is Some == has_key(self.ratings_of(u), item),
            r matches Some(v) ==> v == val_of(self.ratings_of(u), item),
    {
        match self.find_user_row(u) {
            Some(i) => crate::pairs::lookup_val(&self.users[i].items, item),
            None => {
                proof {
                    lemma_ratings_absent(self.rows(), u);
                }
                None
            },
        }
    }

    /// Insert or overwrite one rating. Mirrors a map-of-maps insertion: the
    /// user's entry is created on first use, and an existing item is
    /// overwritten in place.
    pub fn insert_rating(&mut self, u: u32, item: u32, rating: u32)
        requires
            old(self).wf(),
            1 <= rating <= 10,
            old(self).ratings_of(u).len() < MAX_USER_ITEMS,
        ensures
            final(self).wf(),
            forall|w: u32|
                final(self).contains_user(w) == (old(self).contains_user(w) || w == u),
            forall|w: u32| w != u ==> final(self).ratings_of(w) == old(self).ratings_of(w),
            forall|j: u32|
                has_key(final(self).ratings_of(u), j) == (has_key(
                    old(self).ratings_of(u),
                    j,
                ) || j == item),
            val_of(final(self).ratings_of(u), item) == rating,
            forall|j: u32|
                j != item ==> val_of(final(self).ratings_of(u), j) == val_of(
                    old(self).ratings_of(u),
                    j,
                ),
            final(self).ratings_of(u).len() <= old(self).ratings_of(u).len() + 1,
    {
        let ghost rows0 = self.rows();
        match self.find_user_row(u) {
            Some(i) => {
                let mut row = self.users.remove(i);
                let ghost items0 = row.items@;
                match crate::pairs::find_key_index(&row.items, item) {
                    Some(j) => {
                        row.items.set(j, (item, rating));
                        proof {
                            assert(row.items@ == items0.update(j as int, (item, rating)));
                            lemma_val_of_first(row.items@, item, j as int);
                            assert forall|k: u32| k != item implies val_of(row.items@, k)
                                == val_of(items0, k) && has_key(row.items@, k) == has_key(
                                items0,
                                k,
                            ) by {
                                lemma_val_of_update_other(items0, j as int, (item, rating), k);
                            }
                        }
                    },
                    None => {
                        row.items.push((item, rating));
                        proof {
                            assert(row.items@ == items0.push((item, rating)));
                            assert forall|m: int|
                                0 <= m < items0.len() implies (#[trigger] row.items@[m]).0
                                != item by {
                                assert(row.items@[m] == items0[m]);
                                if items0[m].0 == item {
                                    assert(has_key(items0, item));
                                }
                            }
                            lemma_val_of_first(row.items@, item, items0.len() as int);
                            assert forall|k: u32| k != item implies val_of(row.items@, k)
                                == val_of(items0, k) && has_key(row.items@, k) == has_key(
                                items0,
                                k,
                            ) by {
                                lemma_val_of_push(items0, (item, rating), k);
                                if !has_key(items0, k) {
                                    crate::pairs::lemma_val_of_absent(items0, k);
                                    crate::pairs::lemma_val_of_absent(row.items@, k);
                                }
                                if has_key(row.items@, k) {
                                    let w = choose|m: int|
                                        0 <= m < row.items@.len() && (#[trigger] row.items@[m]).0
                                            == k;
                                    assert(items0[w].0 == k);
                                }
                            }
                        }
                    },
                }
                let ghost row1 = row;
                self.users.insert(i, row);
                proof {
                    assert(self.rows() =~= rows0.update(i as int, row1));
                    lemma_ratings_first_row(self.rows(), i as int);
                    assert forall|w: u32| w != u implies self.ratings_of(w) == old(
                        self,
                    ).ratings_of(w) by {
                        lemma_ratings_update(rows0, i as int, row1, w);
                    }
                    assert forall|w: u32|
                        self.contains_user(w) == (old(self).contains_user(w) || w == u) by {
                        if self.contains_user(w) {
                            let m = choose|m: int|
                                0 <= m < self.rows().len() && (#[trigger] self.rows()[m]).user
                                    == w;
                            assert(m == i || rows0[m].user == w);
                        }
                        if old(self).contains_user(w) {
                            let m = choose|m: int|
                                0 <= m < rows0.len() && (#[trigger] rows0[m]).user == w;
                            assert(self.rows()[m].user == w);
                        }
                    }
                }
            },
            None => {
                let mut items: Vec<(u32, u32)> = Vec::new();
                items.push((item, rating));
                let row = UserRow { user: u, items };
                let ghost row1 = row;
                self.users.push(row);
                proof {
                    assert(self.rows() =~= rows0.push(row1));
                    assert(self.rows()[rows0.len() as int] == row1);
                    assert(forall|m: int|
                        0 <= m < rows0.len() ==> #[trigger] self.rows()[m] == rows0[m]);
                    lemma_ratings_first_row(self.rows(), rows0.len() as int);
                    assert(self.ratings_of(u) =~= seq![(item, rating)]);
                    lemma_ratings_absent(rows0, u);
                    assert forall|w: u32| w != u implies self.ratings_of(w) == old(
                        self,
                    ).ratings_of(w) by {
                        lemma_ratings_push(rows0, row1, w);
                    }
                    assert forall|w: u32|
                        self.contains_user(w) == (old(self).contains_user(w) || w == u) by {
                        if self.contains_user(w) && w != u {
                            let m = choose|m: int|
                                0 <= m < self.rows().len() && (#[trigger] self.rows()[m]).user
                                    == w;
                            assert(rows0[m].user == w);
                        }
                        if old(self).contains_user(w) {
                            let m = choose|m: int|
                                0 <= m < rows0.len() && (#[trigger] rows0[m]).user == w;
                            assert(self.rows()[m].user == w);
                        }
                    }
                    assert(val_of(self.ratings_of(u), item) == rating);
                    assert forall|j: u32| j != item implies val_of(self.ratings_of(u), j)
                        == val_of(old(self).ratings_of(u), j) && has_key(
                        self.ratings_of(u),
                        j,
                    ) == has_key(old(self).ratings_of(u), j) by {
                        assert(val_of(self.ratings_of(u), j) == val_of(
                            self.ratings_of(u).drop_first(),
                            j,
                        ));
                        assert(self.ratings_of(u).drop_first() =~= Seq::<(u32, u32)>::empty());
                        assert(val_of(Seq::<(u32, u32)>::empty(), j) == 0);
                        assert(val_of(old(self).ratings_of(u), j) == 0);
                        if has_key(self.ratings_of(u), j) {
                            let m = choose|m: int|
                                0 <= m < self.ratings_of(u).len() && (#[trigger] self.ratings_of(
                                    u,
                                )[m]).0 == j;
                            assert(false);
                        }
                    }
                }
            },
        }
    }
}

/// Is this ingested record kept? Only ratings from 1 to 10 are; the upstream
/// "unrated" sentinel (-1) and any stray value are dropped.
pub open spec fn record_kept(rec: RatingRecord) -> bool {
    1 <= rec.rating <= 10
}

/// The rating the record sequence assigns to `(u, it)`: the value of the last
/// kept record for that pair, if any.
pub open spec fn records_rating(recs: Seq<RatingRecord>, u: u32, it: u32) -> Option<u32>
    decreases recs.len(),
{
    if recs.len() == 0 {
        None
    } else if recs.last().user_id == u && recs.last().anime_id == it && record_kept(recs.last()) {
        Some(recs.last().rating as u32)
    } else {
        records_rating(recs.drop_last(), u, it)
    }
}

/// Does the record sequence keep at least one rating of user `u`?
pub open spec fn records_have_user(recs: Seq<RatingRecord>, u: u32) -> bool {
    exists|i: int|
        0 <= i < recs.len() && (#[trigger] recs[i]).user_id == u && record_kept(recs[i])
}

/// Build a rating store from ingested records: every kept record is inserted
/// in order, later records for the same user and item overwriting earlier
/// ones; records outside the rating range are dropped.
pub fn store_from_records(records: &Vec<RatingRecord>) -> (r: RatingStore)
    requires
        records@.len() <= MAX_USER_ITEMS,
    ensures
        r.wf(),
        forall|u: u32| r.contains_user(u) == records_have_user(records@, u),
        forall|u: u32, it: u32|
            has_key(r.ratings_of(u), it) == (records_rating(records@, u, it) is Some),
        forall|u: u32, it: u32|
            (#[trigger] records_rating(records@, u, it)) matches Some(v) ==> val_of(
                r.ratings_of(u),
                it,
            ) == v,
{
    let mut store = RatingStore::new();
    let n = records.len();
    let mut i: usize = 0;
    proof {
        assert forall|u: u32| (#[trigger] store.ratings_of(u)).len() <= 0 by {
            lemma_ratings_absent(store.rows(), u);
        }
    }
    while i < n
        invariant
            n == records@.len(),
            n <= MAX_USER_ITEMS,
            0 <= i <= n,
            store.wf(),
            forall|u: u32| (#[trigger] store.ratings_of(u)).len() <= i,
            forall|u: u32|
                store.contains_user(u) == records_have_user(records@.take(i as int), u),
            forall|u: u32, it: u32|
                has_key(store.ratings_of(u), it) == (records_rating(
                    records@.take(i as int),
                    u,
                    it,
                ) is Some),
            forall|u: u32, it: u32|
                (#[trigger] records_rating(records@.take(i as int), u, it)) matches Some(v)
                    ==> val_of(store.ratings_of(u), it) == v,
        decreases n - i,
    {
        let rec = &records[i];
        let ghost prev = store;
        let ghost tk = records@.take(i as int);
        let ghost tk1 = records@.take(i as int + 1);
        proof {
            assert(tk1.drop_last() =~= tk);
            assert(tk1.last() == records@[i as int]);
        }
        if 1 <= rec.rating && rec.rating <= 10 {
            store.insert_rating(rec.user_id, rec.anime_id, rec.rating as u32);
            proof {
                assert forall|u: u32|
                    store.contains_user(u) == records_have_user(tk1, u) by {
                    if records_have_user(tk1, u) {
                        let m = choose|m: int|
                            0 <= m < tk1.len() && (#[trigger] tk1[m]).user_id == u
                                && record_kept(tk1[m]);
                        if m < i {
                            assert(tk[m] == tk1[m]);
                        }
                    }
                    if records_have_user(tk, u) {
                        let m = choose|m: int|
                            0 <= m < tk.len() && (#[trigger] tk[m]).user_id == u && record_kept(
                                tk[m],
                            );
                        assert(tk1[m] == tk[m]);
                    }
                }
                assert forall|u: u32, it: u32|
                    has_key(store.ratings_of(u), it) == ((#[trigger] records_rating(
                        tk1,
                        u,
                        it,
                    )) is Some) && (records_rating(tk1, u, it) matches Some(v) ==> val_of(
                        store.ratings_of(u),
                        it,
                    ) == v) by {
                    if u == rec.user_id && it == rec.anime_id {
                        assert(records_rating(tk1, u, it) == Some(rec.rating as u32));
                    } else {
                        assert(records_rating(tk1, u, it) == records_rating(tk, u, it));
                    }
                }
                assert forall|u: u32| (#[trigger] store.ratings_of(u)).len() <= i + 1 by {
                    assert(prev.ratings_of(u).len() <= i);
                }
            }
        } else {
            proof {
                assert forall|u: u32|
                    records_have_user(tk1, u) == records_have_user(tk, u) by {
                    if records_have_user(tk1, u) {
                        let m = choose|m: int|
                            0 <= m < tk1.len() && (#[trigger] tk1[m]).user_id == u
                                && record_kept(tk1[m]);
                        assert(m < i);
                        assert(tk[m] == tk1[m]);
                    }
                    if records_have_user(tk, u) {
                        let m = choose|m: int|
                            0 <= m < tk.len() && (#[trigger] tk[m]).user_id == u && record_kept(
                                tk[m],
                            );
                        assert(tk1[m] == tk[m]);
                    }
                }
                assert forall|u: u32, it: u32| (#[trigger] records_rating(tk1, u, it))
                    == records_rating(tk, u, it) by {}
            }
        }
        i += 1;
    }
    proof {
        assert(records@.take(n as int) =~= records@);
    }
    store
}

/// Is `k` the item of some entry of the name table?
pub open spec fn name_key(s: Seq<(u32, String)>, k: u32) -> bool {
    exists|i: int| 0 <= i < s.len() && (#[trigger] s[i]).0 == k
}

/// The display name the table holds for `k`: the first entry carrying `k`
/// (the empty sequence if none does).
pub open spec fn name_in(s: Seq<(u32, String)>, k: u32) -> Seq<char>
    decreases s.len(),
{
    if s.len() == 0 {
        Seq::empty()
    } else if s[0].0 == k {
        s[0].1@
    } else {
        name_in(s.drop_first(), k)
    }
}

/// If entry `i` is the first one carrying `k`, `name_in` returns its view.
pub proof fn lemma_name_in_first(s: Seq<(u32, String)>, k: u32, i: int)
    requires
        0 <= i < s.len(),
        s[i].0 == k,
        forall|m: int| 0 <= m < i ==> (#[trigger] s[m]).0 != k,
    ensures
        name_in(s, k) == s[i].1@,
    decreases s.len(),
{
    if i > 0 {
        lemma_name_in_first(s.drop_first(), k, i - 1);
        assert(forall|m: int|
            0 <= m < s.drop_first().len() ==> #[trigger] s.drop_first()[m] == s[m + 1]);
    }
}

/// Item popularity table: item -> member count. Lookups of absent items give
/// 0, mirroring the defaulted lookup the recommender applies.
pub struct ItemMembers {
    pub entries: Vec<(u32, u32)>,
}

impl ItemMembers {
    /// The entries of the table, as a sequence.
    pub open spec fn table(self) -> Seq<(u32, u32)> {
        self.entries@
    }

    /// The member count recorded for `it` (0 if absent).
    pub open spec fn members_of(self, it: u32) -> u32 {
        if has_key(self.table(), it) {
            val_of(self.table(), it)
        } else {
            0
        }
    }

    /// An empty table.
    pub fn new() -> (r: ItemMembers)
        ensures
            r.table().len() == 0,
            forall|it: u32| r.members_of(it) == 0,
    {
        let r = ItemMembers { entries: Vec::new() };
        proof {
            assert forall|it: u32| r.members_of(it) == 0 by {
                crate::pairs::lemma_val_of_absent(r.table(), it);
            }
        }
        r
    }

    /// Record the member count of `it`, superseding any earlier entry.
    pub fn insert(&mut self, it: u32, members: u32)
        ensures
            final(self).members_of(it) == members,
            forall|j: u32| j != it ==> final(self).members_of(j) == old(self).members_of(j),
    {
        let ghost t0 = self.entries@;
        self.entries.insert(0, (it, members));
        proof {
            assert(self.entries@[0] == (it, members));
            assert(self.entries@.drop_first() =~= t0);
            assert(has_key(self.table(), it));
            assert forall|j: u32|
                j != it implies (has_key(self.table(), j) == has_key(t0, j)) && val_of(
                self.table(),
                j,
            ) == val_of(t0, j) by {
                assert(val_of(self.table(), j) == val_of(t0, j));
                if has_key(self.table(), j) {
                    let w = choose|i: int|
                        0 <= i < self.table().len() && (#[trigger] self.table()[i]).0 == j;
                    assert(t0[w - 1].0 == j);
                }
                if has_key(t0, j) {
                    let w = choose|i: int| 0 <= i < t0.len() && (#[trigger] t0[i]).0 == j;
                    assert(self.table()[w + 1].0 == j);
                }
            }
        }
    }

    /// The member count recorded for `it`; absent items count 0 members.
    pub fn get(&self, it: u32) -> (m: u32)
        ensures
            m == self.members_of(it),
    {
        match crate::pairs::lookup_val(&self.entries, it) {
            Some(m) => m,
            None => {
                proof {
                    crate::pairs::lemma_val_of_absent(self.table(), it);
                }
                0
            },
        }
    }
}

/// What `html_escape` decodes a raw name to; the result depends on the
/// characters of the raw name alone.
pub uninterp spec fn html_decoded(s: Seq<char>) -> Seq<char>;

/// Relies on html_escape::decode_html_entities: a pure function of the input
/// string that replaces HTML entities by the characters they denote.
#[verifier::external_body]
fn decode_entities(raw: &str) -> (r: String)
    ensures
        r@ == html_decoded(raw@),
{
    html_escape::decode_html_entities(raw).into_owned()
}

/// Item name table: item -> decoded display name.
pub struct ItemNames {
    pub entries: Vec<(u32, String)>,
}

impl ItemNames {
    /// The entries of the table, as a sequence.
    pub open spec fn table(self) -> Seq<(u32, String)> {
        self.entries@
    }

    /// Does the table name the item `it`?
    pub open spec fn has_name(self, it: u32) -> bool {
        name_key(self.table(), it)
    }

    /// The decoded display name of `it`.
    pub open spec fn name_of(self, it: u32) -> Seq<char> {
        name_in(self.table(), it)
    }

    /// An empty table.
    pub fn new() -> (r: ItemNames)
        ensures
            r.table().len() == 0,
            forall|it: u32| !r.has_name(it),
    {
        ItemNames { entries: Vec::new() }
    }

    /// Record the raw name of `it`, decoding its HTML entities; supersedes any
    /// earlier entry for the same item.
    pub fn insert(&mut self, it: u32, raw_name: &str)
        ensures
            final(self).has_name(it),
            final(self).name_of(it) == html_decoded(raw_name@),
            forall|j: u32|
                j != it ==> final(self).has_name(j) == old(self).has_name(j)
                    && final(self).name_of(j) == old(self).name_of(j),
    {
        let decoded = decode_entities(raw_name);
        let ghost t0 = self.entries@;
        self.entries.insert(0, (it, decoded));
        proof {
            assert(self.entries@.drop_first() =~= t0);
            assert(self.table()[0].0 == it);
            assert forall|j: u32|
                j != it implies (name_key(self.table(), j) == name_key(t0, j)) && name_in(
                self.table(),
                j,
            ) == name_in(t0, j) by {
                assert(name_in(self.table(), j) == name_in(t0, j));
                if name_key(self.table(), j) {
                    let w = choose|i: int|
                        0 <= i < self.table().len() && (#[trigger] self.table()[i]).0 == j;
                    assert(t0[w - 1].0 == j);
                }
                if name_key(t0, j) {
                    let w = choose|i: int| 0 <= i < t0.len() && (#[trigger] t0[i]).0 == j;
                    assert(self.table()[w + 1].0 == j);
                }
            }
        }
    }

    /// The display name recorded for `it`, if any.
    pub fn get_name(&self, it: u32) -> (r: Option<String>)
        ensures
            r is Some == self.has_name(it),
            r matches Some(nm) ==> nm@ == self.name_of(it),
    {
        let n = self.entries.len();
        let mut i: usize = 0;
        while i < n
            invariant
                n == self.table().len(),
                0 <= i <= n,
                forall|m: int| 0 <= m < i ==> (#[trigger] self.table()[m]).0 != it,
            decreases n - i,
        {
            if self.entries[i].0 == it {
                proof {
                    lemma_name_in_first(self.table(), it, i as int);
                }
                return Some(String::from_str(self.entries[i].1.as_str()));
            }
            i += 1;
        }
        None
    }
}

/// The values and items of any user's ratings inherit the store invariant.
pub proof fn lemma_store_ratings_wf(store: RatingStore, u: u32)
    requires
        store.wf(),
    ensures
        values_in_rating_range(store.ratings_of(u)),
        unique_keys(store.ratings_of(u)),
        store.ratings_of(u).len() <= MAX_USER_ITEMS,
{
    lemma_ratings_is_some_row(store.rows(), u);
}

} // verus!
