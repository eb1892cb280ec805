//! Laws of the record store, stated over the map operations that the
//! operations' contracts are written with.

use vstd::prelude::*;
use crate::store::UserView;

verus! {

/// Creating a record and immediately reading the returned identifier yields a
/// record with exactly that identifier, name and email: after the insertion
/// that `create` performs, the key is present and maps to the inserted record,
/// which is what `read` then returns.
pub proof fn lemma_create_then_read(
    users: Map<u32, UserView>,
    id: u32,
    name: Seq<char>,
    email: Seq<char>,
)
    ensures
        users.insert(id, (UserView { id, name, email })).contains_key(id),
        users.insert(id, (UserView { id, name, email }))[id] == (UserView { id, name, email }),
{
}

/// Deleting a record removes it: after the removal that `delete` performs,
/// the key is absent, so a subsequent `read` of that identifier reports
/// not-found, and a second `delete` of it reports not-found as well, a
/// failure rather than a fault.
pub proof fn lemma_delete_then_absent(users: Map<u32, UserView>, id: u32)
    ensures
        !users.remove(id).contains_key(id),
{
}

} // verus!
