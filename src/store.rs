//! The store facade: records, rank index and ranking view, changed together.
//!
//! A commit runs in this order: the record and its rank entry change
//! together (`register`, `apply_score_delta`), the caller writes `snapshot`
//! to stable storage, and then `refresh_view` rebuilds the ranking view.
//! When the write fails the caller skips `refresh_view`: memory keeps the new
//! state while the view and the disk keep the old one.

use vstd::prelude::*;
use crate::rank_index::{has_key, is_ranked, keys_unique, RankEntry, RankIndex};
use crate::record::{contains_id, RecordStore, User, UserView};
use crate::view::{ranking_text, render_ranking, EMPTY_RANKING};

verus! {

/// Why an operation of the store was refused.
#[derive(Debug, Clone, Copy, PartialEq, Eq, Structural)]
pub enum StoreError {
    /// A record with this key exists already.
    DuplicateKey,
    /// No record has this key.
    UnknownKey,
    /// The record has solved this challenge before.
    AlreadySolved,
    /// The new score does not fit in 32 bits.
    ScoreOverflow,
    /// A snapshot whose records and ranking do not agree.
    CorruptSnapshot,
}

impl StoreError {
    /// A fixed sentence for each kind of refusal.
    pub fn reason(&self) -> (r: &'static str)
        ensures
            r@ == store_error_reason(*self),
    {
        match self {
            StoreError::DuplicateKey => "Username already registered",
            StoreError::UnknownKey => "User does not exist",
            StoreError::AlreadySolved => "You have already solved this challenge",
            StoreError::ScoreOverflow => "Score out of range",
            StoreError::CorruptSnapshot => "Stored data is inconsistent",
        }
    }
}

pub open spec fn store_error_reason(e: StoreError) -> Seq<char> {
    match e {
        StoreError::DuplicateKey => "Username already registered"@,
        StoreError::UnknownKey => "User does not exist"@,
        StoreError::AlreadySolved => "You have already solved this challenge"@,
        StoreError::ScoreOverflow => "Score out of range"@,
        StoreError::CorruptSnapshot => "Stored data is inconsistent"@,
    }
}

/// The index lists exactly the records, each with its current score.
pub open spec fn index_matches(records: Map<Seq<char>, UserView>, ranking: Seq<(Seq<char>, u32)>) -> bool {
    &&& ranking.len() == records.dom().len()
    &&& forall|x: (Seq<char>, u32)| #[trigger] ranking.to_set().contains(x)
        <==> (records.contains_key(x.0) && records[x.0].score == x.1)
}

/// A record after solving `item` worth `delta` points.
pub open spec fn solved(u: UserView, item: u16, delta: u32) -> UserView {
    UserView { score: (u.score + delta) as u32, solves: u.solves.push(item), ..u }
}

/// The whole state as plain values, as it is written to stable storage.
pub struct Snapshot {
    pub records: Vec<User>,
    pub ranking: Vec<RankEntry>,
}

pub open spec fn user_views(v: Seq<User>) -> Seq<UserView> {
    v.map_values(|u: User| u@)
}

pub open spec fn entry_views(v: Seq<RankEntry>) -> Seq<(Seq<char>, u32)> {
    v.map_values(|e: RankEntry| e@)
}

/// The (key, score) pair of each record.
pub open spec fn rank_pairs(recs: Seq<UserView>) -> Seq<(Seq<char>, u32)> {
    recs.map_values(|u: UserView| (u.username, u.score))
}

/// `recs` lists exactly the records of `m`, each as `m` holds it.
pub open spec fn holds_records(recs: Seq<User>, m: Map<Seq<char>, UserView>) -> bool {
    &&& forall|i: int| 0 <= i < recs.len() ==> m.contains_key(#[trigger] recs[i].username@) && m[recs[i].username@] == recs[i]@
    &&& forall|k: Seq<char>| #[trigger] m.contains_key(k) ==> exists|i: int| 0 <= i < recs.len() && (#[trigger] recs[i]).username@ == k
}

/// No two records share a key.
pub open spec fn usernames_unique(recs: Seq<UserView>) -> bool {
    forall|i: int, j: int| 0 <= i < recs.len() && 0 <= j < recs.len() && i != j
        ==> (#[trigger] recs[i]).username != (#[trigger] recs[j]).username
}

/// A snapshot that can be loaded: keys unique on both sides, and the ranking
/// holds exactly the (key, score) pairs of the records.
pub open spec fn snapshot_consistent(recs: Seq<UserView>, ranking: Seq<(Seq<char>, u32)>) -> bool {
    &&& usernames_unique(recs)
    &&& keys_unique(ranking)
    &&& recs.len() == ranking.len()
    &&& ranking.to_set() == rank_pairs(recs).to_set()
}

/// Loads records into a fresh record store; `None` when two share a key.
fn load_records(recs: &Vec<User>) -> (r: Option<RecordStore>)
    ensures
        r is Some <==> usernames_unique(user_views(recs@)),
        r matches Some(s) ==> {
            &&& s.wf()
            &&& s@.dom().finite()
            &&& s@.dom().len() == recs@.len()
            &&& forall|i: int| 0 <= i < recs@.len() ==> s@.contains_key(#[trigger] recs@[i].username@)
                && s@[recs@[i].username@] == recs@[i]@
            &&& forall|k: Seq<char>| #[trigger] s@.contains_key(k)
                ==> exists|i: int| 0 <= i < recs@.len() && (#[trigger] recs@[i]).username@ == k
        },
{
    let mut store = RecordStore::new();
    let mut i: usize = 0;
    while i < recs.len()
        invariant
            i <= recs@.len(),
            store.wf(),
            store@.dom().finite(),
            store@.dom().len() == i,
            usernames_unique(user_views(recs@.take(i as int))),
            forall|j: int| 0 <= j < i ==> store@.contains_key(#[trigger] recs@[j].username@)
                && store@[recs@[j].username@] == recs@[j]@,
            forall|k: Seq<char>| #[trigger] store@.contains_key(k)
                ==> exists|j: int| 0 <= j < i && (#[trigger] recs@[j]).username@ == k,
        decreases recs.len() - i,
    {
        if store.get(recs[i].username.as_str()).is_some() {
            proof {
                let k = recs@[i as int].username@;
                let j = choose|j: int| 0 <= j < i && (#[trigger] recs@[j]).username@ == k;
                assert(user_views(recs@)[j].username == user_views(recs@)[i as int].username);
            }
            return None;
        }
        let ghost before = store@;
        let ghost k = recs@[i as int].username@;
        store.upsert(recs[i].copy());
        proof {
            assert(store@.dom() =~= before.dom().insert(k));
            assert(!before.dom().contains(k));
            assert forall|a: int, b: int| 0 <= a < i + 1 && 0 <= b < i + 1 && a != b
                implies (#[trigger] user_views(recs@.take(i + 1))[a]).username != (#[trigger] user_views(recs@.take(i + 1))[b]).username by {
                if a < i && b < i {
                    assert(user_views(recs@.take(i as int))[a] == user_views(recs@.take(i + 1))[a]);
                    assert(user_views(recs@.take(i as int))[b] == user_views(recs@.take(i + 1))[b]);
                } else if a == i {
                    assert(before.contains_key(recs@[b].username@));
                } else {
                    assert(before.contains_key(recs@[a].username@));
                }
            };
            assert forall|k2: Seq<char>| #[trigger] store@.contains_key(k2)
                implies exists|j: int| 0 <= j < i + 1 && (#[trigger] recs@[j]).username@ == k2 by {
                if k2 == k {
                    assert(recs@[i as int].username@ == k2);
                }
            };
        }
        i = i + 1;
    }
    assert(recs@.take(i as int) =~= recs@);
    Some(store)
}

/// Loads rank entries into a fresh index; `None` when two share a key.
fn load_ranking(v: &Vec<RankEntry>) -> (r: Option<RankIndex>)
    ensures
        r is Some <==> keys_unique(entry_views(v@)),
        r matches Some(ix) ==> {
            &&& ix.wf()
            &&& ix@.len() == v@.len()
            &&& ix@.to_set() == entry_views(v@).to_set()
        },
{
    let ghost ev = entry_views(v@);
    let mut index = RankIndex::new();
    let mut i: usize = 0;
    proof {
        assert(ev.take(0).to_set() =~= Set::<(Seq<char>, u32)>::empty());
        assert(index@.to_set() =~= Set::<(Seq<char>, u32)>::empty());
    }
    while i < v.len()
        invariant
            i <= v@.len(),
            ev == entry_views(v@),
            index.wf(),
            index@.len() == i,
            index@.to_set() == ev.take(i as int).to_set(),
            keys_unique(ev.take(i as int)),
        decreases v.len() - i,
    {
        let ghost before = index@;
        match index.find(v[i].username.as_str()) {
            Some(p) => {
                proof {
                    assert(before.to_set().contains(before[p as int]));
                    let j = choose|j: int| 0 <= j < i && ev.take(i as int)[j] == before[p as int];
                    assert(ev[j].0 == ev[i as int].0);
                }
                return None;
            },
            None => {},
        }
        index.insert(v[i].copy());
        proof {
            let t0 = ev.take(i as int);
            let t1 = ev.take(i + 1);
            assert(t1 =~= t0.push(ev[i as int]));
            assert forall|x| t1.to_set().contains(x) <==> t0.to_set().insert(ev[i as int]).contains(x) by {
                if t1.to_set().contains(x) {
                    let j = choose|j: int| 0 <= j < t1.len() && t1[j] == x;
                    if j < i {
                        assert(t0[j] == x);
                    }
                }
                if t0.to_set().contains(x) {
                    let j = choose|j: int| 0 <= j < t0.len() && t0[j] == x;
                    assert(t1[j] == x);
                }
                if x == ev[i as int] {
                    assert(t1[i as int] == x);
                }
            };
            assert(t1.to_set() =~= t0.to_set().insert(ev[i as int]));
            assert forall|a: int, b: int| 0 <= a < t1.len() && 0 <= b < t1.len() && a != b
                implies (#[trigger] t1[a]).0 != (#[trigger] t1[b]).0 by {
                if a < i && b < i {
                    assert(t0[a] == t1[a]);
                    assert(t0[b] == t1[b]);
                } else {
                    let m = if a == i { b } else { a };
                    assert(t0[m] == ev[m]);
                    assert(t0.to_set().contains(ev[m]));
                    assert(before.to_set().contains(ev[m]));
                    let q = choose|q: int| 0 <= q < before.len() && before[q] == ev[m];
                    assert(has_key(before, ev[m].0));
                }
            };
        }
        i = i + 1;
    }
    assert(ev.take(i as int) =~= ev);
    Some(index)
}

/// What `apply_score_delta` answers on records `m`.
pub open spec fn delta_outcome(m: Map<Seq<char>, UserView>, key: Seq<char>, item: u16, delta: u32) -> Result<(), StoreError> {
    if !m.contains_key(key) {
        Err(StoreError::UnknownKey)
    } else if m[key].solves.contains(item) {
        Err(StoreError::AlreadySolved)
    } else if m[key].score + delta > u32::MAX {
        Err(StoreError::ScoreOverflow)
    } else {
        Ok(())
    }
}

/// The records after a successful `apply_score_delta`.
pub open spec fn with_solve(m: Map<Seq<char>, UserView>, key: Seq<char>, item: u16, delta: u32) -> Map<Seq<char>, UserView> {
    m.insert(key, solved(m[key], item, delta))
}

/// The records and the rank index, kept in bijection.
pub struct DBInner {
    records: RecordStore,
    index: RankIndex,
}

impl DBInner {
    /// The records by key.
    pub closed spec fn records_view(&self) -> Map<Seq<char>, UserView> {
        self.records@
    }

    /// The rank index, in ranking order.
    pub closed spec fn ranking(&self) -> Seq<(Seq<char>, u32)> {
        self.index@
    }

    pub closed spec fn wf(&self) -> bool {
        &&& self.records.wf()
        &&& self.index.wf()
        &&& index_matches(self.records@, self.index@)
    }

    /// What every well-formed `DBInner` satisfies: the index is in ranking
    /// order, holds each key once, and lists exactly the records with their
    /// scores, one entry per record; each record is stored under its name.
    pub proof fn lemma_wf(&self)
        requires
            self.wf(),
        ensures
            is_ranked(self.ranking()),
            keys_unique(self.ranking()),
            index_matches(self.records_view(), self.ranking()),
            self.records_view().dom().finite(),
            forall|k: Seq<char>| #[trigger] self.records_view().contains_key(k) ==> self.records_view()[k].username == k,
    {
        self.records.lemma_keys_match();
    }

    pub fn new() -> (r: DBInner)
        ensures
            r.wf(),
            is_ranked(r.ranking()),
            keys_unique(r.ranking()),
            index_matches(r.records_view(), r.ranking()),
            r.records_view() == Map::<Seq<char>, UserView>::empty(),
            r.ranking() == Seq::<(Seq<char>, u32)>::empty(),
    {
        let r = DBInner { records: RecordStore::new(), index: RankIndex::new() };
        proof {
            assert(r.index@.to_set() =~= Set::empty());
            assert(r.records@.dom() =~= Set::empty());
        }
        r
    }

    /// The record with key `username`.
    pub fn get(&self, username: &str) -> (r: Option<&User>)
        requires
            self.wf(),
        ensures
            r is Some == self.records_view().contains_key(username@),
            r matches Some(u) ==> u@ == self.records_view()[username@],
    {
        self.records.get(username)
    }

    /// Stores `user` under its user name. The stale rank entry of that name,
    /// if any, is removed before the new one is inserted, and then the record
    /// itself is replaced or added.
    pub fn set(&mut self, user: User)
        requires
            old(self).wf(),
        ensures
            final(self).wf(),
            is_ranked(final(self).ranking()),
            keys_unique(final(self).ranking()),
            index_matches(final(self).records_view(), final(self).ranking()),
            final(self).records_view() == old(self).records_view().insert(user.username@, user@),
            final(self).ranking().to_set() == old(self).ranking().to_set().filter(
                |x: (Seq<char>, u32)| x.0 != user.username@,
            ).insert((user.username@, user.score)),
    {
        let ghost old_records = self.records@;
        let ghost old_index = self.index@;
        let ghost k = user.username@;
        proof {
            self.records.lemma_keys_match();
            if has_key(old_index, k) {
                let i = choose|i: int| 0 <= i < old_index.len() && (#[trigger] old_index[i]).0 == k;
                assert(old_index.to_set().contains(old_index[i]));
            }
            if old_records.contains_key(k) {
                assert(old_index.to_set().contains((k, old_records[k].score)));
            }
        }
        let name = user.username.clone();
        self.index.upsert(name, user.score);
        self.records.upsert(user);
        proof {
            self.records.lemma_keys_match();
            assert(self.records@.dom() =~= old_records.dom().insert(k));
            assert forall|x: (Seq<char>, u32)| #[trigger] self.index@.to_set().contains(x)
                <==> (self.records@.contains_key(x.0) && self.records@[x.0].score == x.1) by {
                if x.0 != k {
                    assert(self.index@.to_set().contains(x) == old_index.to_set().contains(x));
                }
            }
        }
    }
}

/// The store handed to the request handlers: the records and their rank
/// index, and the ranking view built from the index at the last commit.
/// Whoever shares it across threads guards it with one exclusive lock, held
/// for a whole commit.
pub struct DB {
    db: DBInner,
    view: String,
}

impl DB {
    /// The records by key.
    pub closed spec fn records_view(&self) -> Map<Seq<char>, UserView> {
        self.db.records@
    }

    /// The rank index, in ranking order.
    pub closed spec fn ranking(&self) -> Seq<(Seq<char>, u32)> {
        self.db.index@
    }

    /// The ranking view as last rebuilt.
    pub closed spec fn view_text(&self) -> Seq<char> {
        self.view@
    }

    pub closed spec fn wf(&self) -> bool {
        self.db.wf()
    }

    /// What every well-formed store satisfies: the index is ranked, holds each
    /// key once, and lists exactly the records with their scores.
    pub proof fn lemma_wf(&self)
        requires
            self.wf(),
        ensures
            is_ranked(self.ranking()),
            keys_unique(self.ranking()),
            index_matches(self.records_view(), self.ranking()),
            self.records_view().dom().finite(),
            forall|k: Seq<char>| #[trigger] self.records_view().contains_key(k) ==> self.records_view()[k].username == k,
    {
        self.db.records.lemma_keys_match();
    }

    /// An empty store; its view is the placeholder.
    pub fn new() -> (r: DB)
        ensures
            r.wf(),
            r.records_view() == Map::<Seq<char>, UserView>::empty(),
            r.ranking() == Seq::<(Seq<char>, u32)>::empty(),
            r.view_text() == EMPTY_RANKING@,
    {
        let db = DBInner::new();
        let view = render_ranking(&db.index);
        DB { db, view }
    }

    /// The record with key `username`.
    pub fn get(&self, username: &str) -> (r: Option<&User>)
        requires
            self.wf(),
        ensures
            r is Some == self.records_view().contains_key(username@),
            r matches Some(u) ==> u@ == self.records_view()[username@],
    {
        self.db.get(username)
    }

    /// The ranking view, as it was rebuilt last; nothing is recomputed.
    pub fn current_ranking_view(&self) -> (r: &String)
        ensures
            r@ == self.view_text(),
    {
        &self.view
    }

    /// Rebuilds the ranking view from the rank index.
    pub fn refresh_view(&mut self)
        requires
            old(self).wf(),
        ensures
            final(self).wf(),
            final(self).records_view() == old(self).records_view(),
            final(self).ranking() == old(self).ranking(),
            final(self).view_text() == ranking_text(final(self).ranking()),
    {
        self.view = render_ranking(&self.db.index);
    }

    /// Adds a fresh record (score zero, nothing solved) under `username`.
    /// The ranking view is left as it was: see `refresh_view`.
    pub fn register(&mut self, username: String, email: String, password: String) -> (r: Result<(), StoreError>)
        requires
            old(self).wf(),
        ensures
            final(self).wf(),
            final(self).view_text() == old(self).view_text(),
            r is Err <==> old(self).records_view().contains_key(username@),
            r matches Err(e) ==> e == StoreError::DuplicateKey,
            r is Err ==> final(self).records_view() == old(self).records_view() && final(self).ranking() == old(self).ranking(),
            r is Ok ==> final(self).records_view() == old(self).records_view().insert(
                username@,
                UserView { id: 0, username: username@, email: email@, password: password@, score: 0, solves: Seq::empty() },
            ),
            r is Ok ==> final(self).ranking().to_set() == old(self).ranking().to_set().insert((username@, 0u32)),
    {
        if self.db.get(username.as_str()).is_some() {
            return Err(StoreError::DuplicateKey);
        }
        let ghost old_set = self.ranking().to_set();
        let ghost k = username@;
        proof {
            assert(old_set.filter(|x: (Seq<char>, u32)| x.0 != k) =~= old_set) by {
                assert forall|x: (Seq<char>, u32)| old_set.contains(x) implies x.0 != k by {}
            }
        }
        self.db.set(User::new(username, email, password));
        Ok(())
    }

    /// Records that `key` solved challenge `item`, worth `delta` points: the
    /// item is appended to the solved list and the score grows by `delta`,
    /// in the record and in the rank index together. The ranking view is
    /// left as it was: see `refresh_view`.
    pub fn apply_score_delta(&mut self, key: &str, item: u16, delta: u32) -> (r: Result<(), StoreError>)
        requires
            old(self).wf(),
        ensures
            final(self).wf(),
            final(self).view_text() == old(self).view_text(),
            r == delta_outcome(old(self).records_view(), key@, item, delta),
            r is Err ==> final(self).records_view() == old(self).records_view() && final(self).ranking() == old(self).ranking(),
            r is Ok ==> final(self).records_view() == with_solve(old(self).records_view(), key@, item, delta),
            r is Ok ==> final(self).ranking().to_set() == old(self).ranking().to_set().filter(
                |x: (Seq<char>, u32)| x.0 != key@,
            ).insert((key@, (old(self).records_view()[key@].score + delta) as u32)),
    {
        let current = match self.db.get(key) {
            None => {
                return Err(StoreError::UnknownKey);
            },
            Some(u) => u,
        };
        if contains_id(&current.solves, item) {
            return Err(StoreError::AlreadySolved);
        }
        if current.score > u32::MAX - delta {
            return Err(StoreError::ScoreOverflow);
        }
        let mut next = current.copy();
        next.solves.push(item);
        next.score = current.score + delta;
        proof {
            self.lemma_wf();
        }
        self.db.set(next);
        Ok(())
    }

    /// Copies the whole state out, for writing to stable storage.
    pub fn snapshot(&self) -> (r: Snapshot)
        requires
            self.wf(),
        ensures
            entry_views(r.ranking@) == self.ranking(),
            usernames_unique(user_views(r.records@)),
            r.records@.len() == self.records_view().dom().len(),
            holds_records(r.records@, self.records_view()),
    {
        let src = self.db.records.records();
        let mut records: Vec<User> = Vec::new();
        let mut i: usize = 0;
        while i < src.len()
            invariant
                i <= src@.len(),
                records@.len() == i,
                forall|j: int| 0 <= j < i ==> (#[trigger] records@[j])@ == src@[j]@,
            decreases src.len() - i,
        {
            records.push(src[i].copy());
            i = i + 1;
        }
        let entries = self.db.index.entries();
        let mut ranking: Vec<RankEntry> = Vec::new();
        let mut j: usize = 0;
        while j < entries.len()
            invariant
                j <= entries@.len(),
                ranking@.len() == j,
                forall|m: int| 0 <= m < j ==> (#[trigger] ranking@[m])@ == entries@[m]@,
            decreases entries.len() - j,
        {
            ranking.push(entries[j].copy());
            j = j + 1;
        }
        let r = Snapshot { records, ranking };
        proof {
            assert(entry_views(r.ranking@) =~= entry_views(entries@));
            assert forall|a: int, b: int| 0 <= a < r.records@.len() && 0 <= b < r.records@.len() && a != b
                implies (#[trigger] user_views(r.records@)[a]).username != (#[trigger] user_views(r.records@)[b]).username by {
                assert(src@[a].username@ != src@[b].username@);
            };
            assert forall|k: Seq<char>| #[trigger] self.records_view().contains_key(k)
                implies exists|m: int| 0 <= m < r.records@.len() && (#[trigger] r.records@[m]).username@ == k by {
                let m = choose|m: int| 0 <= m < src@.len() && (#[trigger] src@[m]).username@ == k;
                assert(r.records@[m].username@ == k);
            };
        }
        r
    }

    /// Loads a snapshot and builds its ranking view. It is refused with
    /// `CorruptSnapshot` unless it is consistent.
    pub fn restore(snapshot: &Snapshot) -> (r: Result<DB, StoreError>)
        ensures
            r is Ok <==> snapshot_consistent(user_views(snapshot.records@), entry_views(snapshot.ranking@)),
            r matches Err(e) ==> e == StoreError::CorruptSnapshot,
            r matches Ok(s) ==> {
                &&& s.wf()
                &&& s.ranking().to_set() == entry_views(snapshot.ranking@).to_set()
                &&& s.view_text() == ranking_text(s.ranking())
                &&& holds_records(snapshot.records@, s.records_view())
            },
    {
        let recs = &snapshot.records;
        let ranking = &snapshot.ranking;
        let ghost uv = user_views(recs@);
        let ghost ev = entry_views(ranking@);
        let ghost pairs = rank_pairs(uv);
        let records = match load_records(recs) {
            Some(st) => st,
            None => {
                return Err(StoreError::CorruptSnapshot);
            },
        };
        let index = match load_ranking(ranking) {
            Some(ix) => ix,
            None => {
                return Err(StoreError::CorruptSnapshot);
            },
        };
        if recs.len() != ranking.len() {
            return Err(StoreError::CorruptSnapshot);
        }
        // every rank entry is the (key, score) pair of a record
        let mut j: usize = 0;
        while j < ranking.len()
            invariant
                j <= ranking@.len(),
                records.wf(),
                ev == entry_views(ranking@),
                pairs == rank_pairs(uv),
                uv == user_views(recs@),
                recs@ == snapshot.records@,
                ranking@ == snapshot.ranking@,
                ev == entry_views(ranking@),
                forall|i: int| 0 <= i < recs@.len() ==> records@.contains_key(#[trigger] recs@[i].username@)
                    && records@[recs@[i].username@] == recs@[i]@,
                forall|k: Seq<char>| #[trigger] records@.contains_key(k)
                    ==> exists|i: int| 0 <= i < recs@.len() && (#[trigger] recs@[i]).username@ == k,
                forall|m: int| 0 <= m < j ==> pairs.to_set().contains(#[trigger] ev[m]),
            decreases ranking.len() - j,
        {
            let ok = match records.get(ranking[j].username.as_str()) {
                Some(u) => u.score == ranking[j].score,
                None => false,
            };
            if !ok {
                proof {
                    assert(!pairs.to_set().contains(ev[j as int])) by {
                        if pairs.to_set().contains(ev[j as int]) {
                            let i = choose|i: int| 0 <= i < pairs.len() && pairs[i] == ev[j as int];
                            assert(records@.contains_key(recs@[i].username@));
                        }
                    }
                    assert(ev.to_set().contains(ev[j as int]));
                    assert(ev.to_set() != pairs.to_set());
                }
                return Err(StoreError::CorruptSnapshot);
            }
            proof {
                let k = ranking@[j as int].username@;
                let i = choose|i: int| 0 <= i < recs@.len() && (#[trigger] recs@[i]).username@ == k;
                assert(pairs[i] == ev[j as int]);
            }
            j = j + 1;
        }
        // every record has its (key, score) pair in the index
        let entries = index.entries();
        let mut i: usize = 0;
        while i < recs.len()
            invariant
                i <= recs@.len(),
                index.wf(),
                entries@.map_values(|e: RankEntry| e@) == index@,
                index@.to_set() == ev.to_set(),
                pairs == rank_pairs(uv),
                uv == user_views(recs@),
                recs@ == snapshot.records@,
                ranking@ == snapshot.ranking@,
                ev == entry_views(ranking@),
                forall|m: int| 0 <= m < i ==> ev.to_set().contains(#[trigger] pairs[m]),
            decreases recs.len() - i,
        {
            let ok = match index.find(recs[i].username.as_str()) {
                Some(p) => entries[p].score == recs[i].score,
                None => false,
            };
            if !ok {
                proof {
                    assert(!ev.to_set().contains(pairs[i as int])) by {
                        if ev.to_set().contains(pairs[i as int]) {
                            assert(index@.to_set().contains(pairs[i as int]));
                            let q = choose|q: int| 0 <= q < index@.len() && index@[q] == pairs[i as int];
                            assert(has_key(index@, pairs[i as int].0));
                        }
                    }
                    assert(pairs.to_set().contains(pairs[i as int]));
                    assert(ev.to_set() != pairs.to_set());
                }
                return Err(StoreError::CorruptSnapshot);
            }
            proof {
                let p = choose|p: int| 0 <= p < index@.len() && index@[p].0 == recs@[i as int].username@;
                assert(index@.to_set().contains(index@[p]));
            }
            i = i + 1;
        }
        proof {
            assert(ev.to_set() =~= pairs.to_set()) by {
                assert forall|x| ev.to_set().contains(x) implies pairs.to_set().contains(x) by {
                    let m = choose|m: int| 0 <= m < ev.len() && ev[m] == x;
                };
                assert forall|x| pairs.to_set().contains(x) implies ev.to_set().contains(x) by {
                    let m = choose|m: int| 0 <= m < pairs.len() && pairs[m] == x;
                };
            }
            assert forall|x: (Seq<char>, u32)| #[trigger] index@.to_set().contains(x)
                <==> (records@.contains_key(x.0) && records@[x.0].score == x.1) by {
                if index@.to_set().contains(x) {
                    let m = choose|m: int| 0 <= m < pairs.len() && pairs[m] == x;
                }
                if records@.contains_key(x.0) && records@[x.0].score == x.1 {
                    let m = choose|m: int| 0 <= m < recs@.len() && (#[trigger] recs@[m]).username@ == x.0;
                    assert(pairs[m] == x);
                    assert(pairs.to_set().contains(x));
                }
            };
        }
        let view = render_ranking(&index);
        Ok(DB { db: DBInner { records, index }, view })
    }
}

/// Stores `user` under its user name, replacing any record there, and its
/// rank entry with it. The ranking view is left for `DB::refresh_view`.
pub fn db_insert_user(database: &mut DB, user: User)
    requires
        old(database).wf(),
    ensures
        final(database).wf(),
        final(database).view_text() == old(database).view_text(),
        final(database).records_view() == old(database).records_view().insert(user.username@, user@),
        final(database).ranking().to_set() == old(database).ranking().to_set().filter(
            |x: (Seq<char>, u32)| x.0 != user.username@,
        ).insert((user.username@, user.score)),
{
    database.db.set(user);
}

} // verus!
