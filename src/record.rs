//! User records and the record store that maps each key to its record.

use vstd::prelude::*;
use crate::order::compare_keys;

verus! {

/// One registered user.
pub struct User {
    pub id: u32,
    pub username: String,
    pub email: String,
    /// The digest of the password, opaque to the store.
    pub password: String,
    pub score: u32,
    /// Identifiers of solved challenges, each at most once, in solve order.
    pub solves: Vec<u16>,
}

/// What a `User` holds.
pub struct UserView {
    pub id: u32,
    pub username: Seq<char>,
    pub email: Seq<char>,
    pub password: Seq<char>,
    pub score: u32,
    pub solves: Seq<u16>,
}

impl View for User {
    type V = UserView;

    open spec fn view(&self) -> UserView {
        UserView {
            id: self.id,
            username: self.username@,
            email: self.email@,
            password: self.password@,
            score: self.score,
            solves: self.solves@,
        }
    }
}

/// Copies a list of challenge identifiers.
pub fn copy_ids(v: &Vec<u16>) -> (r: Vec<u16>)
    ensures
        r@ == v@,
{
    let mut r: Vec<u16> = Vec::new();
    let mut i: usize = 0;
    while i < v.len()
        invariant
            i <= v@.len(),
            r@ == v@.subrange(0, i as int),
        decreases v.len() - i,
    {
        r.push(v[i]);
        i = i + 1;
        assert(r@ =~= v@.subrange(0, i as int));
    }
    assert(r@ =~= v@);
    r
}

/// Whether `id` occurs in `v`.
pub fn contains_id(v: &Vec<u16>, id: u16) -> (r: bool)
    ensures
        r == v@.contains(id),
{
    let mut i: usize = 0;
    while i < v.len()
        invariant
            i <= v@.len(),
            forall|j: int| 0 <= j < i ==> v@[j] != id,
        decreases v.len() - i,
    {
        if v[i] == id {
            return true;
        }
        i = i + 1;
    }
    false
}

impl User {
    /// A fresh user: score zero and nothing solved.
    pub fn new(username: String, email: String, password: String) -> (r: User)
        ensures
            r@ == (UserView { id: 0, username: username@, email: email@, password: password@, score: 0, solves: Seq::empty() }),
    {
        User { id: 0, username, email, password, score: 0, solves: Vec::new() }
    }

    pub fn copy(&self) -> (r: User)
        ensures
            r@ == self@,
    {
        User {
            id: self.id,
            username: self.username.clone(),
            email: self.email.clone(),
            password: self.password.clone(),
            score: self.score,
            solves: copy_ids(&self.solves),
        }
    }
}

/// The records, each under the key that is its user name.
pub struct RecordStore {
    records: Vec<User>,
    model: Ghost<Map<Seq<char>, UserView>>,
}

impl View for RecordStore {
    type V = Map<Seq<char>, UserView>;

    closed spec fn view(&self) -> Map<Seq<char>, UserView> {
        self.model@
    }
}

impl RecordStore {
    pub closed spec fn wf(&self) -> bool {
        &&& self.model@.dom().finite()
        &&& self.model@.dom().len() == self.records@.len()
        &&& forall|i: int| 0 <= i < self.records@.len() ==> {
            &&& self.model@.contains_key(#[trigger] self.records@[i].username@)
            &&& self.model@[self.records@[i].username@] == self.records@[i]@
        }
        &&& forall|i: int, j: int| 0 <= i < self.records@.len() && 0 <= j < self.records@.len() && i != j
            ==> (#[trigger] self.records@[i]).username@ != (#[trigger] self.records@[j]).username@
        &&& forall|k: Seq<char>| #[trigger] self.model@.contains_key(k)
            ==> exists|i: int| 0 <= i < self.records@.len() && (#[trigger] self.records@[i]).username@ == k
    }

    /// Every record is stored under its own user name.
    pub proof fn lemma_keys_match(&self)
        requires
            self.wf(),
        ensures
            self@.dom().finite(),
            forall|k: Seq<char>| #[trigger] self@.contains_key(k) ==> self@[k].username == k,
    {
        assert forall|k: Seq<char>| #[trigger] self@.contains_key(k) implies self@[k].username == k by {
            let i = choose|i: int| 0 <= i < self.records@.len() && (#[trigger] self.records@[i]).username@ == k;
        };
    }

    pub fn new() -> (r: RecordStore)
        ensures
            r.wf(),
            r@ == Map::<Seq<char>, UserView>::empty(),
    {
        RecordStore { records: Vec::new(), model: Ghost(Map::empty()) }
    }

    pub fn len(&self) -> (r: usize)
        requires
            self.wf(),
        ensures
            r == self@.dom().len(),
    {
        self.records.len()
    }

    fn position(&self, key: &str) -> (r: Option<usize>)
        requires
            self.wf(),
        ensures
            r matches Some(i) ==> i < self.records@.len() && self.records@[i as int].username@ == key@,
            r is None ==> !self@.contains_key(key@),
    {
        let mut i: usize = 0;
        while i < self.records.len()
            invariant
                self.wf(),
                i <= self.records@.len(),
                forall|j: int| 0 <= j < i ==> self.records@[j].username@ != key@,
            decreases self.records.len() - i,
        {
            if let core::cmp::Ordering::Equal = compare_keys(self.records[i].username.as_str(), key) {
                return Some(i);
            }
            i = i + 1;
        }
        None
    }

    /// The record stored under `key`.
    pub fn get(&self, key: &str) -> (r: Option<&User>)
        requires
            self.wf(),
        ensures
            r is Some == self@.contains_key(key@),
            r matches Some(u) ==> u@ == self@[key@],
    {
        match self.position(key) {
            Some(i) => Some(&self.records[i]),
            None => None,
        }
    }

    /// Stores `user` under its user name, replacing the record there if any.
    pub fn upsert(&mut self, user: User)
        requires
            old(self).wf(),
        ensures
            final(self).wf(),
            final(self)@ == old(self)@.insert(user.username@, user@),
    {
        let ghost k = user.username@;
        let ghost uv = user@;
        match self.position(user.username.as_str()) {
            Some(i) => {
                self.records.set(i, user);
                self.model = Ghost(self.model@.insert(k, uv));
                proof {
                    assert(self.model@.dom() =~= old(self).model@.dom());
                    assert forall|k2: Seq<char>| #[trigger] self.model@.contains_key(k2)
                        implies exists|j: int| 0 <= j < self.records@.len() && (#[trigger] self.records@[j]).username@ == k2 by {
                        if k2 != k {
                            let j = choose|j: int| 0 <= j < old(self).records@.len() && (#[trigger] old(self).records@[j]).username@ == k2;
                            assert(self.records@[j].username@ == k2);
                        } else {
                            assert(self.records@[i as int].username@ == k2);
                        }
                    };
                }
            },
            None => {
                self.records.push(user);
                self.model = Ghost(self.model@.insert(k, uv));
                proof {
                    let n = old(self).records@.len() as int;
                    assert(self.records@[n].username@ == k);
                    assert forall|k2: Seq<char>| #[trigger] self.model@.contains_key(k2)
                        implies exists|j: int| 0 <= j < self.records@.len() && (#[trigger] self.records@[j]).username@ == k2 by {
                        if k2 != k {
                            let j = choose|j: int| 0 <= j < old(self).records@.len() && (#[trigger] old(self).records@[j]).username@ == k2;
                            assert(self.records@[j].username@ == k2);
                        }
                    };
                }
            },
        }
    }

    /// All records, in the order they were first stored.
    pub fn records(&self) -> (r: &Vec<User>)
        requires
            self.wf(),
        ensures
            r@.len() == self@.dom().len(),
            forall|i: int| 0 <= i < r@.len() ==> self@.contains_key(#[trigger] r@[i].username@) && self@[r@[i].username@] == r@[i]@,
            forall|i: int, j: int| 0 <= i < r@.len() && 0 <= j < r@.len() && i != j
                ==> (#[trigger] r@[i]).username@ != (#[trigger] r@[j]).username@,
            forall|k: Seq<char>| #[trigger] self@.contains_key(k) ==> exists|i: int| 0 <= i < r@.len() && (#[trigger] r@[i]).username@ == k,
    {
        &self.records
    }
}

} // verus!
