//! An in-memory store of user records keyed by an auto-incrementing
//! identifier, with create, read, update, delete and list operations.

use vstd::prelude::*;

verus! {

/// A user record: an identifier assigned by the store, a name and an email.
///
/// No format is demanded of `name` or `email`: any text, the empty string
/// included, is accepted.
pub struct User {
    pub id: u32,
    pub name: String,
    pub email: String,
}

/// The mathematical form of a record: the identifier with the two texts seen
/// as character sequences.
#[verifier::ext_equal]
pub struct UserView {
    pub id: u32,
    pub name: Seq<char>,
    pub email: Seq<char>,
}

impl View for User {
    type V = UserView;

    open spec fn view(&self) -> UserView {
        UserView { id: self.id, name: self.name@, email: self.email@ }
    }
}

impl User {
    /// A copy of the record, equal to the original in all three fields.
    pub fn duplicate(&self) -> (r: User)
        ensures
            r@ == self@,
    {
        User { id: self.id, name: self.name.clone(), email: self.email.clone() }
    }
}

/// The one error the store reports: the identifier named by a call is absent.
#[derive(Clone, Copy, Debug, PartialEq, Eq, Structural)]
pub struct RecordNotFound;

/// What a store looks like from outside: the stored records keyed by their
/// identifiers, and the counter holding the identifier to assign next.
#[verifier::ext_equal]
pub struct StoreView {
    pub users: Map<u32, UserView>,
    pub next_id: u32,
}

/// The identifiers of the records in `s` are pairwise distinct.
spec fn ids_unique(s: Seq<User>) -> bool {
    forall|i: int, j: int| 0 <= i < j < s.len() ==> s[i].id != s[j].id
}

/// Every identifier of a record in `s` lies strictly below `bound`.
spec fn ids_below(s: Seq<User>, bound: u32) -> bool {
    forall|i: int| 0 <= i < s.len() ==> s[i].id < bound
}

/// The finite map that a sequence of records stands for: each record keyed by
/// its identifier, a later record overriding an earlier one with the same key.
spec fn user_map(s: Seq<User>) -> Map<u32, UserView>
    decreases s.len(),
{
    if s.len() == 0 {
        Map::empty()
    } else {
        user_map(s.drop_last()).insert(s.last().id, s.last()@)
    }
}

/// A key is in the map of a sequence exactly when some record of the sequence
/// carries it as its identifier.
proof fn lemma_user_map_contains(s: Seq<User>, k: u32)
    ensures
        user_map(s).contains_key(k) <==> exists|i: int| 0 <= i < s.len() && s[i].id == k,
    decreases s.len(),
{
    if s.len() > 0 {
        lemma_user_map_contains(s.drop_last(), k);
        if s.last().id == k {
            assert(s[s.len() - 1].id == k);
        } else {
            if user_map(s).contains_key(k) {
                let i = choose|i: int| 0 <= i < s.drop_last().len() && s.drop_last()[i].id == k;
                assert(s[i].id == k);
            }
            if exists|i: int| 0 <= i < s.len() && s[i].id == k {
                let i = choose|i: int| 0 <= i < s.len() && s[i].id == k;
                assert(s.drop_last()[i].id == k);
            }
        }
    }
}

/// Dropping the last record keeps the identifiers pairwise distinct.
proof fn lemma_ids_unique_drop_last(s: Seq<User>)
    requires
        ids_unique(s),
        s.len() > 0,
    ensures
        ids_unique(s.drop_last()),
{
    assert forall|i: int, j: int|
        0 <= i < j < s.drop_last().len() implies s.drop_last()[i].id != s.drop_last()[j].id by {
        assert(s[i].id != s[j].id);
    }
}

/// With pairwise distinct identifiers, the map of a sequence sends each
/// record's identifier to that record.
proof fn lemma_user_map_index(s: Seq<User>, i: int)
    requires
        ids_unique(s),
        0 <= i < s.len(),
    ensures
        user_map(s).contains_key(s[i].id),
        user_map(s)[s[i].id] == s[i]@,
    decreases s.len(),
{
    if i == s.len() - 1 {
        assert(s.last() == s[i]);
    } else {
        lemma_ids_unique_drop_last(s);
        lemma_user_map_index(s.drop_last(), i);
        assert(s.drop_last()[i] == s[i]);
        assert(s[i].id != s[s.len() - 1].id);
    }
}

/// With pairwise distinct identifiers, the map of a sequence has one entry
/// per record.
proof fn lemma_user_map_len(s: Seq<User>)
    requires
        ids_unique(s),
    ensures
        user_map(s).len() == s.len(),
        user_map(s).dom().finite(),
    decreases s.len(),
{
    if s.len() == 0 {
        assert(user_map(s) == Map::<u32, UserView>::empty());
    } else {
        lemma_ids_unique_drop_last(s);
        lemma_user_map_len(s.drop_last());
        lemma_user_map_contains(s.drop_last(), s.last().id);
        assert forall|i: int|
            0 <= i < s.drop_last().len() implies s.drop_last()[i].id != s.last().id by {
            assert(s[i].id != s[s.len() - 1].id);
        }
        assert(!user_map(s.drop_last()).contains_key(s.last().id));
    }
}

/// With pairwise distinct identifiers, removing the record at a position
/// takes exactly that record's entry out of the map.
proof fn lemma_user_map_remove(s: Seq<User>, i: int)
    requires
        ids_unique(s),
        0 <= i < s.len(),
    ensures
        user_map(s.remove(i)) == user_map(s).remove(s[i].id),
    decreases s.len(),
{
    if i == s.len() - 1 {
        assert(s.remove(i) =~= s.drop_last());
        lemma_ids_unique_drop_last(s);
        lemma_user_map_contains(s.drop_last(), s[i].id);
        assert forall|j: int|
            0 <= j < s.drop_last().len() implies s.drop_last()[j].id != s[i].id by {
            assert(s[j].id != s[i].id);
        }
        assert(user_map(s).remove(s[i].id) =~= user_map(s.drop_last()));
    } else {
        lemma_ids_unique_drop_last(s);
        lemma_user_map_remove(s.drop_last(), i);
        assert(s.remove(i).drop_last() =~= s.drop_last().remove(i));
        assert(s.remove(i).last() == s.last());
        assert(s[i].id != s[s.len() - 1].id);
        assert(s.drop_last()[i] == s[i]);
        assert(user_map(s.remove(i)) =~= user_map(s).remove(s[i].id));
    }
}

/// With pairwise distinct identifiers, replacing the record at a position by
/// one carrying the same identifier rewrites exactly that entry of the map.
proof fn lemma_user_map_update(s: Seq<User>, i: int, u: User)
    requires
        ids_unique(s),
        0 <= i < s.len(),
        u.id == s[i].id,
    ensures
        user_map(s.update(i, u)) == user_map(s).insert(u.id, u@),
    decreases s.len(),
{
    if i == s.len() - 1 {
        assert(s.update(i, u).drop_last() =~= s.drop_last());
        assert(s.update(i, u).last() == u);
        assert(user_map(s.update(i, u)) =~= user_map(s).insert(u.id, u@));
    } else {
        lemma_ids_unique_drop_last(s);
        assert(s.drop_last()[i] == s[i]);
        lemma_user_map_update(s.drop_last(), i, u);
        assert(s.update(i, u).drop_last() =~= s.drop_last().update(i, u));
        assert(s.update(i, u).last() == s.last());
        assert(s[i].id != s[s.len() - 1].id);
        assert(user_map(s.update(i, u)) =~= user_map(s).insert(u.id, u@));
    }
}

/// The record store: a table of user records with unique identifiers, and a
/// monotonically increasing counter that assigns the next identifier.
pub struct Database {
    data: Vec<User>,
    next_id: u32,
}

impl View for Database {
    type V = StoreView;

    closed spec fn view(&self) -> StoreView {
        StoreView { users: user_map(self.data@), next_id: self.next_id }
    }
}

impl Database {
    /// Well-formedness: stored identifiers are pairwise distinct, every one of
    /// them lies strictly below the counter, and the counter is at least 1.
    pub closed spec fn wf(self) -> bool {
        &&& ids_unique(self.data@)
        &&& ids_below(self.data@, self.next_id)
        &&& self.next_id >= 1
    }

    /// An empty store whose counter starts at 1.
    pub fn new() -> (d: Database)
        ensures
            d.wf(),
            d@.users == Map::<u32, UserView>::empty(),
            d@.next_id == 1,
    {
        Database { data: Vec::new(), next_id: 1 }
    }

    /// Inserts a record made of the given name and email under a fresh
    /// identifier: the current counter value, which the call returns and
    /// which was never assigned before. The counter then grows by one, so no
    /// later `create` can return this identifier again.
    pub fn create(&mut self, name: String, email: String) -> (id: u32)
        requires
            old(self).wf(),
            old(self)@.next_id < u32::MAX,
        ensures
            final(self).wf(),
            id == old(self)@.next_id,
            !old(self)@.users.contains_key(id),
            final(self)@.users == old(self)@.users.insert(
                id,
                (UserView { id, name: name@, email: email@ }),
            ),
            final(self)@.next_id == old(self)@.next_id + 1,
    {
        let id = self.next_id;
        proof {
            lemma_user_map_contains(self.data@, id);
        }
        let user = User { id, name, email };
        self.data.push(user);
        self.next_id = id + 1;
        proof {
            assert(self.data@.drop_last() =~= old(self).data@);
            assert(self@.users =~= old(self)@.users.insert(
                id,
                UserView { id, name: name@, email: email@ },
            ));
            assert forall|i: int, j: int|
                0 <= i < j < self.data@.len() implies self.data@[i].id != self.data@[j].id by {
                if j == self.data@.len() - 1 {
                    assert(old(self).data@[i].id < old(self).next_id);
                }
            }
        }
        id
    }

    /// Removes the record carrying `id` if one is present, reporting
    /// not-found otherwise; in either case the counter keeps its value, so a
    /// deleted identifier is never assigned again.
    pub fn delete(&mut self, id: u32) -> (r: Result<(), RecordNotFound>)
        requires
            old(self).wf(),
        ensures
            final(self).wf(),
            final(self)@.next_id == old(self)@.next_id,
            match r {
                Ok(_) => old(self)@.users.contains_key(id) && final(self)@.users == old(
                    self,
                )@.users.remove(id),
                Err(_) => !old(self)@.users.contains_key(id) && final(self)@ == old(self)@,
            },
    {
        match self.find(id) {
            Some(i) => {
                proof {
                    lemma_user_map_index(self.data@, i as int);
                    lemma_user_map_remove(self.data@, i as int);
                }
                self.data.remove(i);
                proof {
                    assert forall|a: int, b: int|
                        0 <= a < b < self.data@.len() implies self.data@[a].id != self.data@[b].id
                    by {
                        let s = old(self).data@;
                        let ap: int = if a < i { a } else { a + 1 };
                        let bp: int = if b < i { b } else { b + 1 };
                        assert(s[ap].id != s[bp].id);
                    }
                }
                Ok(())
            },
            None => {
                proof {
                    lemma_user_map_contains(self.data@, id);
                }
                Err(RecordNotFound)
            },
        }
    }

    /// Replaces the name and/or email of the record carrying `id`, each only
    /// where a new value is supplied, and returns the updated record; an
    /// omitted field keeps its previous value, and the identifier never
    /// changes. On an absent identifier it reports not-found and leaves the
    /// store exactly as it was.
    pub fn update(&mut self, id: u32, name: Option<String>, email: Option<String>) -> (r: Result<
        User,
        RecordNotFound,
    >)
        requires
            old(self).wf(),
        ensures
            final(self).wf(),
            final(self)@.next_id == old(self)@.next_id,
            match r {
                Ok(u) => {
                    &&& old(self)@.users.contains_key(id)
                    &&& u@.id == id
                    &&& u@.name == (match name {
                        Some(n) => n@,
                        None => old(self)@.users[id].name,
                    })
                    &&& u@.email == (match email {
                        Some(e) => e@,
                        None => old(self)@.users[id].email,
                    })
                    &&& final(self)@.users == old(self)@.users.insert(id, u@)
                },
                Err(_) => {
                    &&& !old(self)@.users.contains_key(id)
                    &&& final(self)@ == old(self)@
                },
            },
    {
        match self.find(id) {
            Some(i) => {
                proof {
                    lemma_user_map_index(self.data@, i as int);
                }
                let new_name = match name {
                    Some(n) => n,
                    None => self.data[i].name.clone(),
                };
                let new_email = match email {
                    Some(e) => e,
                    None => self.data[i].email.clone(),
                };
                let updated = User { id, name: new_name, email: new_email };
                let result = updated.duplicate();
                proof {
                    lemma_user_map_update(self.data@, i as int, updated);
                }
                self.data[i] = updated;
                proof {
                    assert forall|a: int|
                        0 <= a < self.data@.len() implies self.data@[a].id == old(
                        self,
                    ).data@[a].id by {}
                }
                Ok(result)
            },
            None => {
                proof {
                    lemma_user_map_contains(self.data@, id);
                }
                Err(RecordNotFound)
            },
        }
    }

    /// Every record currently stored, one for each identifier in the table,
    /// in no promised order; the store itself is left untouched.
    pub fn list(&self) -> (r: Vec<User>)
        requires
            self.wf(),
        ensures
            r@.len() == self@.users.len(),
            forall|i: int|
                0 <= i < r@.len() ==> #[trigger] self@.users.contains_key(r@[i].id)
                    && r@[i]@ == self@.users[r@[i].id],
            forall|k: u32|
                self@.users.contains_key(k) ==> exists|i: int|
                    0 <= i < r@.len() && r@[i].id == k,
            forall|i: int, j: int| 0 <= i < j < r@.len() ==> r@[i].id != r@[j].id,
    {
        let mut r: Vec<User> = Vec::new();
        let mut i: usize = 0;
        while i < self.data.len()
            invariant
                i <= self.data@.len(),
                r@.len() == i,
                forall|j: int| 0 <= j < i ==> #[trigger] r@[j]@ == self.data@[j]@,
            decreases self.data@.len() - i,
        {
            let ghost r0: Seq<User> = r@;
            r.push(self.data[i].duplicate());
            proof {
                assert forall|j: int| 0 <= j < i + 1 implies #[trigger] r@[j]@
                    == self.data@[j]@ by {
                    if j < i {
                        assert(r@[j] == r0[j]);
                        assert(r0[j]@ == self.data@[j]@);
                    }
                }
            }
            i = i + 1;
        }
        proof {
            lemma_user_map_len(self.data@);
            assert forall|p: int|
                0 <= p < r@.len() implies #[trigger] self@.users.contains_key(r@[p].id) && r@[p]@
                == self@.users[r@[p].id] by {
                assert(r@[p]@ == self.data@[p]@);
                lemma_user_map_index(self.data@, p);
            }
            assert forall|k: u32| self@.users.contains_key(k) implies exists|p: int|
                0 <= p < r@.len() && r@[p].id == k by {
                lemma_user_map_contains(self.data@, k);
                let p = choose|p: int| 0 <= p < self.data@.len() && self.data@[p].id == k;
                assert(r@[p]@ == self.data@[p]@);
                assert(r@[p].id == k);
            }
            assert forall|a: int, b: int| 0 <= a < b < r@.len() implies r@[a].id != r@[b].id by {
                assert(r@[a]@ == self.data@[a]@);
                assert(r@[b]@ == self.data@[b]@);
                assert(self.data@[a].id != self.data@[b].id);
            }
        }
        r
    }

    /// Whether the counter can still assign a fresh identifier: false only
    /// once the whole identifier space has been handed out.
    pub fn can_create(&self) -> (b: bool)
        ensures
            b == (self@.next_id < u32::MAX),
    {
        self.next_id < u32::MAX
    }

    /// Every identifier present in the store lies strictly below the counter,
    /// so the identifier `create` assigns next is fresh. `create` returns the
    /// counter and then increases it by one, and no other operation touches
    /// the counter, so across any sequence of calls the identifiers `create`
    /// returns are pairwise distinct and strictly increasing, starting at 1 on
    /// a store made by `new`.
    pub proof fn lemma_assigned_ids_below_next(&self)
        requires
            self.wf(),
        ensures
            forall|k: u32| #[trigger] self@.users.contains_key(k) ==> k < self@.next_id,
    {
        assert forall|k: u32| #[trigger] self@.users.contains_key(k) implies k < self@.next_id by {
            lemma_user_map_contains(self.data@, k);
        }
    }

    /// Every stored record carries exactly the identifier it is filed under:
    /// the record that `read` or `list` hands out for a key names that key as
    /// its own identifier.
    pub proof fn lemma_stored_ids_match_keys(&self)
        requires
            self.wf(),
        ensures
            forall|k: u32| #[trigger] self@.users.contains_key(k) ==> self@.users[k].id == k,
    {
        assert forall|k: u32| #[trigger] self@.users.contains_key(k) implies self@.users[k].id
            == k by {
            lemma_user_map_contains(self.data@, k);
            let i = choose|i: int| 0 <= i < self.data@.len() && self.data@[i].id == k;
            lemma_user_map_index(self.data@, i);
        }
    }

    /// The position of the record carrying `id`, if any record does.
    fn find(&self, id: u32) -> (r: Option<usize>)
        ensures
            match r {
                Some(i) => i < self.data@.len() && self.data@[i as int].id == id,
                None => forall|j: int| 0 <= j < self.data@.len() ==> self.data@[j].id != id,
            },
    {
        let mut i: usize = 0;
        while i < self.data.len()
            invariant
                i <= self.data@.len(),
                forall|j: int| 0 <= j < i ==> self.data@[j].id != id,
            decreases self.data@.len() - i,
        {
            if self.data[i].id == id {
                return Some(i);
            }
            i = i + 1;
        }
        None
    }

    /// Looks the identifier up without changing the store: the matching
    /// record if `id` is present, not-found otherwise.
    pub fn read(&self, id: u32) -> (r: Option<&User>)
        requires
            self.wf(),
        ensures
            match r {
                Some(u) => self@.users.contains_key(id) && u@ == self@.users[id],
                None => !self@.users.contains_key(id),
            },
    {
        match self.find(id) {
            Some(i) => {
                proof {
                    lemma_user_map_index(self.data@, i as int);
                }
                Some(&self.data[i])
            },
            None => {
                proof {
                    lemma_user_map_contains(self.data@, id);
                }
                None
            },
        }
    }
}

} // verus!
