//! The rank index: one entry per key, listed in ranking order.

use vstd::prelude::*;
use crate::order::{compare_keys, ranks_before, lemma_ranks_before_asymmetric, lemma_ranks_before_irreflexive, lemma_ranks_before_total, lemma_ranks_before_transitive};

verus! {

/// The (key, score) projection of a record that is enough to rank it.
pub struct RankEntry {
    pub username: String,
    pub score: u32,
}

impl View for RankEntry {
    type V = (Seq<char>, u32);

    open spec fn view(&self) -> (Seq<char>, u32) {
        (self.username@, self.score)
    }
}

impl RankEntry {
    pub fn new(username: String, score: u32) -> (r: RankEntry)
        ensures
            r@ == (username@, score),
    {
        RankEntry { username, score }
    }

    pub fn copy(&self) -> (r: RankEntry)
        ensures
            r@ == self@,
    {
        RankEntry { username: self.username.clone(), score: self.score }
    }
}

/// Compares two entries in ranking order: `Less` when `a` is listed first.
pub fn compare(a: &RankEntry, b: &RankEntry) -> (r: core::cmp::Ordering)
    ensures
        (r == core::cmp::Ordering::Less) == ranks_before(a@, b@),
        (r == core::cmp::Ordering::Equal) == (a@ == b@),
        (r == core::cmp::Ordering::Greater) == ranks_before(b@, a@),
{
    if a.score > b.score {
        core::cmp::Ordering::Less
    } else if a.score < b.score {
        core::cmp::Ordering::Greater
    } else {
        compare_keys(a.username.as_str(), b.username.as_str())
    }
}

/// Every entry is listed before all entries after it.
pub open spec fn is_ranked(s: Seq<(Seq<char>, u32)>) -> bool {
    forall|i: int, j: int| 0 <= i < j < s.len() ==> ranks_before(#[trigger] s[i], #[trigger] s[j])
}

/// No key occurs twice.
pub open spec fn keys_unique(s: Seq<(Seq<char>, u32)>) -> bool {
    forall|i: int, j: int| 0 <= i < s.len() && 0 <= j < s.len() && i != j ==> (#[trigger] s[i]).0 != (#[trigger] s[j]).0
}

/// Whether some entry has key `k`.
pub open spec fn has_key(s: Seq<(Seq<char>, u32)>, k: Seq<char>) -> bool {
    exists|i: int| 0 <= i < s.len() && (#[trigger] s[i]).0 == k
}

/// A ranked listing is determined by the entries it holds: two ranked
/// listings of the same entries are the same listing.
pub proof fn lemma_ranked_listing_unique(a: Seq<(Seq<char>, u32)>, b: Seq<(Seq<char>, u32)>)
    requires
        is_ranked(a),
        is_ranked(b),
        a.to_set() == b.to_set(),
    ensures
        a == b,
    decreases a.len(),
{
    if a.len() == 0 {
        if b.len() > 0 {
            assert(b.to_set().contains(b[0]));
        }
        assert(a =~= b);
    } else {
        assert(a.to_set().contains(a[0]));
        let j = choose|j: int| 0 <= j < b.len() && b[j] == a[0];
        assert(b.to_set().contains(b[0]));
        let i = choose|i: int| 0 <= i < a.len() && a[i] == b[0];
        if j > 0 {
            assert(ranks_before(b[0], b[j]));
            if i > 0 {
                assert(ranks_before(a[0], a[i]));
                lemma_ranks_before_asymmetric(a[0], b[0]);
            } else {
                lemma_ranks_before_irreflexive(b[0]);
            }
        }
        assert(a[0] == b[0]);
        let a1 = a.drop_first();
        let b1 = b.drop_first();
        assert forall|x| a1.to_set().contains(x) <==> b1.to_set().contains(x) by {
            if a1.to_set().contains(x) {
                let k = choose|k: int| 0 <= k < a1.len() && a1[k] == x;
                assert(ranks_before(a[0], a[k + 1]));
                lemma_ranks_before_irreflexive(x);
                assert(a.to_set().contains(x));
                let m = choose|m: int| 0 <= m < b.len() && b[m] == x;
                assert(m != 0);
                assert(b1[m - 1] == x);
            }
            if b1.to_set().contains(x) {
                let k = choose|k: int| 0 <= k < b1.len() && b1[k] == x;
                assert(ranks_before(b[0], b[k + 1]));
                lemma_ranks_before_irreflexive(x);
                assert(b.to_set().contains(x));
                let m = choose|m: int| 0 <= m < a.len() && a[m] == x;
                assert(m != 0);
                assert(a1[m - 1] == x);
            }
        };
        assert(a1.to_set() =~= b1.to_set());
        assert forall|p: int, q: int| 0 <= p < q < a1.len() implies ranks_before(#[trigger] a1[p], #[trigger] a1[q]) by {
            assert(ranks_before(a[p + 1], a[q + 1]));
        };
        assert forall|p: int, q: int| 0 <= p < q < b1.len() implies ranks_before(#[trigger] b1[p], #[trigger] b1[q]) by {
            assert(ranks_before(b[p + 1], b[q + 1]));
        };
        lemma_ranked_listing_unique(a1, b1);
        assert(a =~= seq![a[0]] + a1);
        assert(b =~= seq![b[0]] + b1);
    }
}

pub struct RankIndex {
    entries: Vec<RankEntry>,
}

impl View for RankIndex {
    type V = Seq<(Seq<char>, u32)>;

    closed spec fn view(&self) -> Seq<(Seq<char>, u32)> {
        self.entries@.map_values(|e: RankEntry| e@)
    }
}

impl RankIndex {
    /// The index is in ranking order and holds each key once.
    pub open spec fn wf(&self) -> bool {
        is_ranked(self@) && keys_unique(self@)
    }

    pub fn new() -> (r: RankIndex)
        ensures
            r.wf(),
            r@ == Seq::<(Seq<char>, u32)>::empty(),
    {
        let r = RankIndex { entries: Vec::new() };
        assert(r@ =~= Seq::<(Seq<char>, u32)>::empty());
        r
    }

    pub fn len(&self) -> (r: usize)
        ensures
            r == self@.len(),
    {
        self.entries.len()
    }

    /// The entries in ranking order.
    pub fn entries(&self) -> (r: &Vec<RankEntry>)
        ensures
            r@.map_values(|e: RankEntry| e@) == self@,
    {
        &self.entries
    }

    /// The position of the entry with key `key`, if there is one.
    pub fn find(&self, key: &str) -> (r: Option<usize>)
        ensures
            r matches Some(i) ==> i < self@.len() && self@[i as int].0 == key@,
            r is None ==> !has_key(self@, key@),
    {
        let mut i: usize = 0;
        while i < self.entries.len()
            invariant
                i <= self@.len(),
                self@.len() == self.entries@.len(),
                forall|j: int| 0 <= j < i ==> self@[j].0 != key@,
            decreases self.entries.len() - i,
        {
            if let core::cmp::Ordering::Equal = compare_keys(self.entries[i].username.as_str(), key) {
                return Some(i);
            }
            i = i + 1;
        }
        None
    }

    /// Adds an entry whose key the index does not hold, at its ranked place.
    pub fn insert(&mut self, e: RankEntry)
        requires
            old(self).wf(),
            !has_key(old(self)@, e@.0),
        ensures
            final(self).wf(),
            final(self)@.to_set() == old(self)@.to_set().insert(e@),
            final(self)@.len() == old(self)@.len() + 1,
    {
        let ghost s = self@;
        let mut p: usize = 0;
        let mut placed = false;
        while p < self.entries.len() && !placed
            invariant
                p <= s.len(),
                self@ == s,
                self@.len() == self.entries@.len(),
                !has_key(s, e@.0),
                forall|j: int| 0 <= j < p ==> ranks_before(s[j], e@),
                placed ==> p < s.len() && ranks_before(e@, s[p as int]),
            decreases self.entries.len() - p, (if placed { 0int } else { 1int }),
        {
            match compare(&e, &self.entries[p]) {
                core::cmp::Ordering::Less => {
                    placed = true;
                },
                _ => {
                    proof {
                        assert(s[p as int].0 != e@.0);
                        lemma_ranks_before_total(s[p as int], e@);
                    }
                    p = p + 1;
                },
            }
        }
        proof {
            if p < s.len() {
                assert(ranks_before(e@, s[p as int])) by {
                    if !placed {
                        assert(false);
                    }
                }
            }
        }
        let ghost ev = e@;
        self.entries.insert(p, e);
        proof {
            let t = self@;
            assert(t =~= s.insert(p as int, ev));
            assert forall|i: int, j: int| 0 <= i < j < t.len() implies ranks_before(#[trigger] t[i], #[trigger] t[j]) by {
                if j < p {
                } else if j == p {
                } else if i < p {
                    // s[i] before e, e before s[p] before s[j-1]
                    if p < s.len() {
                        if j - 1 > p {
                            lemma_ranks_before_transitive(ev, s[p as int], s[j - 1]);
                        }
                        lemma_ranks_before_transitive(s[i], ev, s[j - 1]);
                    }
                } else if i == p {
                    if j - 1 > p {
                        lemma_ranks_before_transitive(ev, s[p as int], s[j - 1]);
                    }
                } else {
                }
            };
            assert forall|x| t.to_set().contains(x) <==> s.to_set().insert(ev).contains(x) by {
                if t.to_set().contains(x) {
                    let i = choose|i: int| 0 <= i < t.len() && t[i] == x;
                    if i < p {
                        assert(s[i] == x);
                    } else if i > p {
                        assert(s[i - 1] == x);
                    }
                }
                if s.to_set().contains(x) {
                    let i = choose|i: int| 0 <= i < s.len() && s[i] == x;
                    if i < p {
                        assert(t[i] == x);
                    } else {
                        assert(t[i + 1] == x);
                    }
                }
                if x == ev {
                    assert(t[p as int] == x);
                }
            };
            assert(t.to_set() =~= s.to_set().insert(ev));
        }
    }

    /// Removes the entry with key `key`, if there is one.
    pub fn remove_key(&mut self, key: &str)
        requires
            old(self).wf(),
        ensures
            final(self).wf(),
            !has_key(final(self)@, key@),
            final(self)@.to_set() == old(self)@.to_set().filter(|x: (Seq<char>, u32)| x.0 != key@),
            final(self)@.len() == if has_key(old(self)@, key@) { old(self)@.len() - 1 } else { old(self)@.len() as int },
    {
        let ghost s = self@;
        match self.find(key) {
            None => {
                assert(s.to_set() =~= s.to_set().filter(|x: (Seq<char>, u32)| x.0 != key@));
            },
            Some(p) => {
                self.entries.remove(p);
                proof {
                    let t = self@;
                    assert(t =~= s.remove(p as int));
                    assert forall|i: int, j: int| 0 <= i < j < t.len() implies ranks_before(#[trigger] t[i], #[trigger] t[j]) by {
                        if i < p && j >= p {
                            assert(ranks_before(s[i], s[j + 1]));
                        } else if i >= p {
                            assert(ranks_before(s[i + 1], s[j + 1]));
                        }
                    };
                    assert forall|i: int, j: int| 0 <= i < t.len() && 0 <= j < t.len() && i != j implies (#[trigger] t[i]).0 != (#[trigger] t[j]).0 by {
                        let si = if i < p { i } else { i + 1 };
                        let sj = if j < p { j } else { j + 1 };
                        assert(s[si].0 != s[sj].0);
                    };
                    assert forall|i: int| 0 <= i < t.len() implies (#[trigger] t[i]).0 != key@ by {
                        let si = if i < p { i } else { i + 1 };
                        assert(s[si].0 != s[p as int].0);
                    };
                    assert forall|x| t.to_set().contains(x) <==> s.to_set().filter(|x: (Seq<char>, u32)| x.0 != key@).contains(x) by {
                        if t.to_set().contains(x) {
                            let i = choose|i: int| 0 <= i < t.len() && t[i] == x;
                            let si = if i < p { i } else { i + 1 };
                            assert(s[si] == x);
                        }
                        if s.to_set().contains(x) && x.0 != key@ {
                            let i = choose|i: int| 0 <= i < s.len() && s[i] == x;
                            if i < p {
                                assert(t[i] == x);
                            } else {
                                assert(i != p);
                                assert(t[i - 1] == x);
                            }
                        }
                    };
                    assert(t.to_set() =~= s.to_set().filter(|x: (Seq<char>, u32)| x.0 != key@));
                }
            },
        }
    }

    /// Sets the score of `key`: any entry it had is removed first, then the new
    /// entry goes to its ranked place.
    pub fn upsert(&mut self, key: String, score: u32)
        requires
            old(self).wf(),
        ensures
            final(self).wf(),
            final(self)@.to_set() == old(self)@.to_set().filter(|x: (Seq<char>, u32)| x.0 != key@).insert((key@, score)),
            final(self)@.len() == if has_key(old(self)@, key@) { old(self)@.len() as int } else { old(self)@.len() + 1int },
    {
        self.remove_key(key.as_str());
        self.insert(RankEntry::new(key, score));
    }
}

} // verus!
