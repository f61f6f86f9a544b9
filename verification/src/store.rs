//! Which contacts of other stations go into the database.

use vstd::prelude::*;

use crate::clock::{is_moment, now_rfc3339, rfc3339_text, Moment};
use crate::contact::XmlContact;

verus! {

/// A contact to enter in the database.
#[derive(Debug)]
pub struct NewRow {
    pub contact: XmlContact,
    /// When it was entered.
    pub created_at: String,
}

/// Whether a contact is in the database already, by the number of contacts there that have
/// its identity.
pub open spec fn is_known(count: int) -> bool {
    count > 0
}

/// Whether a contact is in the database already.
pub fn is_duplicate(count: i64) -> (r: bool)
    ensures
        r == is_known(count as int),
{
    count > 0
}

/// What to enter for a contact at a time; nothing where it is in the database already.
pub fn row_at(contact: XmlContact, count: i64, created_at: String) -> (r: Option<NewRow>)
    ensures
        r == (if is_known(count as int) {
            None
        } else {
            Some(NewRow { contact, created_at })
        }),
{
    if is_duplicate(count) {
        None
    } else {
        Some(NewRow { contact, created_at })
    }
}

/// What to enter for a contact now; nothing where it is in the database already.
pub fn new_row(contact: XmlContact, count: i64) -> (r: Option<NewRow>)
    ensures
        r is None <==> is_known(count as int),
        r matches Some(row) ==> row.contact == contact && exists|at: Moment|
            is_moment(at) && row.created_at@ == #[trigger] rfc3339_text(at),
{
    row_at(contact, count, now_rfc3339())
}

// ---------------------------------------------------------------------------
// The table of contacts
// ---------------------------------------------------------------------------

/// A row of the table: its number, and the identity of the contact if it has one.
#[verifier::ext_equal]
pub struct Stored {
    pub id: int,
    pub n1mm_id: Option<Seq<char>>,
}

/// How many rows have an identity.
pub open spec fn count_of(table: Seq<Stored>, n1mm_id: Seq<char>) -> nat
    decreases table.len(),
{
    if table.len() == 0 {
        0
    } else {
        count_of(table.drop_last(), n1mm_id) + (if table.last().n1mm_id == Some(n1mm_id) {
            1nat
        } else {
            0nat
        })
    }
}

/// The table after a contact of another station came in: with a row more, unless the identity
/// is there already.
pub open spec fn entered(table: Seq<Stored>, id: int, n1mm_id: Seq<char>) -> Seq<Stored> {
    if is_known(count_of(table, n1mm_id) as int) {
        table
    } else {
        table.push(Stored { id, n1mm_id: Some(n1mm_id) })
    }
}

/// A row with an identity put on it; a row that has one keeps it.
pub open spec fn with_stamp(row: Stored, id: int, n1mm_id: Seq<char>) -> Stored {
    if row.id == id && row.n1mm_id is None {
        Stored { id, n1mm_id: Some(n1mm_id) }
    } else {
        row
    }
}

/// The table after a row was stamped with an identity.
pub open spec fn stamped(table: Seq<Stored>, id: int, n1mm_id: Seq<char>) -> Seq<Stored> {
    table.map_values(|row: Stored| with_stamp(row, id, n1mm_id))
}

/// What happens to the table; no row is ever removed.
pub enum Change {
    /// A contact of another station comes in.
    Enter { id: int, n1mm_id: Seq<char> },
    /// A row is stamped with an identity.
    Stamp { id: int, n1mm_id: Seq<char> },
    /// The operator logs a contact.
    Log { id: int },
}

/// The table after a change.
pub open spec fn changed(table: Seq<Stored>, change: Change) -> Seq<Stored> {
    match change {
        Change::Enter { id, n1mm_id } => entered(table, id, n1mm_id),
        Change::Stamp { id, n1mm_id } => stamped(table, id, n1mm_id),
        Change::Log { id } => table.push(Stored { id, n1mm_id: None }),
    }
}

/// The table after changes in a row.
pub open spec fn after_changes(table: Seq<Stored>, changes: Seq<Change>) -> Seq<Stored>
    decreases changes.len(),
{
    if changes.len() == 0 {
        table
    } else {
        changed(after_changes(table, changes.drop_last()), changes.last())
    }
}

// ---------------------------------------------------------------------------
// Laws
// ---------------------------------------------------------------------------

/// A contact whose identity is not in the table gets a row of its own behind the others, which
/// stay as they are.
pub proof fn new_contact_is_entered(table: Seq<Stored>, id: int, n1mm_id: Seq<char>)
    requires
        count_of(table, n1mm_id) == 0,
    ensures
        entered(table, id, n1mm_id) == table.push(Stored { id, n1mm_id: Some(n1mm_id) }),
        count_of(entered(table, id, n1mm_id), n1mm_id) == 1,
{
    let t = table.push(Stored { id, n1mm_id: Some(n1mm_id) });
    assert(t.drop_last() == table);
}

/// A contact is known by one row with its identity, and by any number of them.
pub proof fn one_row_is_enough(count: int)
    ensures
        count >= 1 ==> is_known(count),
        count == 0 ==> !is_known(count),
{
}

/// A contact that came in is in the table.
pub proof fn entered_is_counted(table: Seq<Stored>, id: int, n1mm_id: Seq<char>)
    ensures
        count_of(entered(table, id, n1mm_id), n1mm_id) >= 1,
{
    let t = table.push(Stored { id, n1mm_id: Some(n1mm_id) });
    assert(t.drop_last() == table);
}

/// The identity that a row without one is stamped with is in the table.
pub proof fn stamped_is_counted(table: Seq<Stored>, k: int, n1mm_id: Seq<char>)
    requires
        0 <= k < table.len(),
        table[k].n1mm_id is None,
    ensures
        count_of(stamped(table, table[k].id, n1mm_id), n1mm_id) >= 1,
{
    let t = stamped(table, table[k].id, n1mm_id);
    assert(t[k].n1mm_id == Some(n1mm_id));
    lemma_counted(t, k, n1mm_id);
}

/// An identity that is in the table stays there.
pub proof fn counted_stays_counted(table: Seq<Stored>, changes: Seq<Change>, n1mm_id: Seq<char>)
    requires
        count_of(table, n1mm_id) >= 1,
    ensures
        count_of(after_changes(table, changes), n1mm_id) >= 1,
    decreases changes.len(),
{
    if changes.len() > 0 {
        let before = after_changes(table, changes.drop_last());
        counted_stays_counted(table, changes.drop_last(), n1mm_id);
        let k = lemma_place(before, n1mm_id);
        let after = after_changes(table, changes);
        assert(after[k].n1mm_id == Some(n1mm_id));
        lemma_counted(after, k, n1mm_id);
    }
}

/// What is in the table once is entered by no later copy, whatever else happened since: the
/// table stays as it is.
pub proof fn no_second_row(
    table: Seq<Stored>,
    changes: Seq<Change>,
    id: int,
    n1mm_id: Seq<char>,
)
    requires
        count_of(table, n1mm_id) >= 1,
    ensures
        ({
            let now = after_changes(table, changes);
            entered(now, id, n1mm_id) == now
        }),
{
    counted_stays_counted(table, changes, n1mm_id);
}

/// A row with an identity is counted.
proof fn lemma_counted(table: Seq<Stored>, k: int, n1mm_id: Seq<char>)
    requires
        0 <= k < table.len(),
        table[k].n1mm_id == Some(n1mm_id),
    ensures
        count_of(table, n1mm_id) >= 1,
    decreases table.len(),
{
    if k < table.len() - 1 {
        lemma_counted(table.drop_last(), k, n1mm_id);
    }
}

/// The place of a row that is counted.
proof fn lemma_place(table: Seq<Stored>, n1mm_id: Seq<char>) -> (k: int)
    requires
        count_of(table, n1mm_id) >= 1,
    ensures
        0 <= k < table.len(),
        table[k].n1mm_id == Some(n1mm_id),
    decreases table.len(),
{
    if table.last().n1mm_id == Some(n1mm_id) {
        table.len() - 1
    } else {
        lemma_place(table.drop_last(), n1mm_id)
    }
}

} // verus!
