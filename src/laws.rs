//! Laws of the store, proved from the contracts of its operations.

use vstd::prelude::*;
use crate::order::key_lt;
use crate::rank_index::lemma_ranked_listing_unique;
use crate::record::UserView;
use crate::store::{
    delta_outcome, entry_views, holds_records, rank_pairs, snapshot_consistent, user_views,
    usernames_unique, with_solve, Snapshot, StoreError, DB,
};
use crate::view::{ranking_text, EMPTY_RANKING};

verus! {

/// The rank index and the records are in bijection: the index has as many
/// entries as there are records, and an entry (k, s) is in the index exactly
/// when a record with key k and score s is stored.
pub proof fn lemma_index_in_bijection(s: &DB)
    requires
        s.wf(),
    ensures
        s.ranking().len() == s.records_view().dom().len(),
        forall|x: (Seq<char>, u32)| #[trigger] s.ranking().to_set().contains(x)
            <==> (s.records_view().contains_key(x.0) && s.records_view()[x.0].score == x.1),
{
    s.lemma_wf();
}

/// The ranking lists records by descending score, and records of equal score
/// by ascending key.
pub proof fn lemma_ranking_order(s: &DB)
    requires
        s.wf(),
    ensures
        forall|i: int, j: int| 0 <= i < j < s.ranking().len() ==> {
            let a = #[trigger] s.ranking()[i];
            let b = #[trigger] s.ranking()[j];
            a.1 > b.1 || (a.1 == b.1 && key_lt(a.0, b.0))
        },
{
    s.lemma_wf();
}

/// The ranking is a function of the records: two stores with the same
/// records list them in the same order, and render the same view.
pub proof fn lemma_ranking_determined(s: &DB, t: &DB)
    requires
        s.wf(),
        t.wf(),
        s.records_view() == t.records_view(),
    ensures
        s.ranking() == t.ranking(),
        ranking_text(s.ranking()) == ranking_text(t.ranking()),
{
    s.lemma_wf();
    t.lemma_wf();
    assert(s.ranking().to_set() =~= t.ranking().to_set());
    lemma_ranked_listing_unique(s.ranking(), t.ranking());
}

/// With no records the view is the fixed placeholder.
pub proof fn lemma_empty_view(s: Seq<(Seq<char>, u32)>)
    requires
        s.len() == 0,
    ensures
        ranking_text(s) == EMPTY_RANKING@,
{
}

/// Solving the same challenge a second time is refused as already solved.
pub proof fn lemma_second_solve_refused(m: Map<Seq<char>, UserView>, key: Seq<char>, item: u16, delta: u32)
    requires
        delta_outcome(m, key, item, delta) is Ok,
    ensures
        delta_outcome(with_solve(m, key, item, delta), key, item, delta) == Err::<(), StoreError>(StoreError::AlreadySolved),
{
    let after = with_solve(m, key, item, delta);
    assert(after[key].solves[after[key].solves.len() - 1] == item);
}

/// Score updates on distinct keys commute: either order gives the same
/// answers and the same records.
pub proof fn lemma_distinct_updates_commute(
    m: Map<Seq<char>, UserView>,
    k1: Seq<char>,
    i1: u16,
    d1: u32,
    k2: Seq<char>,
    i2: u16,
    d2: u32,
)
    requires
        k1 != k2,
    ensures
        delta_outcome(m, k1, i1, d1) is Ok ==> delta_outcome(with_solve(m, k1, i1, d1), k2, i2, d2) == delta_outcome(m, k2, i2, d2),
        delta_outcome(m, k2, i2, d2) is Ok ==> delta_outcome(with_solve(m, k2, i2, d2), k1, i1, d1) == delta_outcome(m, k1, i1, d1),
        delta_outcome(m, k1, i1, d1) is Ok && delta_outcome(m, k2, i2, d2) is Ok ==> with_solve(with_solve(m, k1, i1, d1), k2, i2, d2)
            == with_solve(with_solve(m, k2, i2, d2), k1, i1, d1),
{
    if delta_outcome(m, k1, i1, d1) is Ok && delta_outcome(m, k2, i2, d2) is Ok {
        assert(with_solve(with_solve(m, k1, i1, d1), k2, i2, d2) =~= with_solve(with_solve(m, k2, i2, d2), k1, i1, d1));
    }
}

/// A snapshot of a store satisfies what `restore` checks, so it loads.
pub proof fn lemma_snapshot_consistent(s: &DB, snap: &Snapshot)
    requires
        s.wf(),
        entry_views(snap.ranking@) == s.ranking(),
        usernames_unique(user_views(snap.records@)),
        snap.records@.len() == s.records_view().dom().len(),
        holds_records(snap.records@, s.records_view()),
    ensures
        snapshot_consistent(user_views(snap.records@), entry_views(snap.ranking@)),
{
    s.lemma_wf();
    let uv = user_views(snap.records@);
    let pairs = rank_pairs(uv);
    let ev = entry_views(snap.ranking@);
    assert forall|x| ev.to_set().contains(x) <==> pairs.to_set().contains(x) by {
        if ev.to_set().contains(x) {
            assert(s.ranking().to_set().contains(x));
            let i = choose|i: int| 0 <= i < snap.records@.len() && (#[trigger] snap.records@[i]).username@ == x.0;
            assert(pairs[i] == x);
        }
        if pairs.to_set().contains(x) {
            let i = choose|i: int| 0 <= i < pairs.len() && pairs[i] == x;
            assert(s.records_view().contains_key(snap.records@[i].username@));
            assert(s.ranking().to_set().contains(x));
        }
    };
    assert(ev.to_set() =~= pairs.to_set());
}

/// Loading a snapshot of a store gives back the same records and the same
/// ranking, in the same order.
pub proof fn lemma_round_trip(s: &DB, snap: &Snapshot, t: &DB)
    requires
        s.wf(),
        entry_views(snap.ranking@) == s.ranking(),
        holds_records(snap.records@, s.records_view()),
        t.wf(),
        t.ranking().to_set() == entry_views(snap.ranking@).to_set(),
        holds_records(snap.records@, t.records_view()),
    ensures
        t.records_view() == s.records_view(),
        t.ranking() == s.ranking(),
{
    s.lemma_wf();
    t.lemma_wf();
    assert forall|k: Seq<char>| #[trigger] t.records_view().contains_key(k) <==> s.records_view().contains_key(k) by {
        if t.records_view().contains_key(k) {
            let i = choose|i: int| 0 <= i < snap.records@.len() && (#[trigger] snap.records@[i]).username@ == k;
        }
        if s.records_view().contains_key(k) {
            let i = choose|i: int| 0 <= i < snap.records@.len() && (#[trigger] snap.records@[i]).username@ == k;
        }
    };
    assert forall|k: Seq<char>| #[trigger] t.records_view().contains_key(k) implies t.records_view()[k] == s.records_view()[k] by {
        let i = choose|i: int| 0 <= i < snap.records@.len() && (#[trigger] snap.records@[i]).username@ == k;
    };
    assert(t.records_view() =~= s.records_view());
    lemma_ranked_listing_unique(t.ranking(), s.ranking());
}

} // verus!
