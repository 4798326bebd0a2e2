//! The spendable balance of an account: every note it owns that no spend
//! record names.

use vstd::prelude::*;

verus! {

/// The shielded pool that holds a note.
#[derive(Debug, Clone, Copy, PartialEq, Eq, Structural)]
pub enum Pool {
    Sapling,
    Orchard,
}

/// A note's identity in the wallet store: its pool and its row there.
#[derive(Debug, Clone, Copy, PartialEq, Eq, Structural)]
pub struct NoteRef {
    pub pool: Pool,
    pub row: u64,
}

/// A note received by one of the wallet's accounts.
#[derive(Debug, Clone, Copy, PartialEq, Eq, Structural)]
pub struct OwnedNote {
    pub note: NoteRef,
    pub account: u32,
    pub value: u64,
}

#[derive(Debug, Clone, Copy, PartialEq, Eq, Structural)]
pub enum BalanceError {
    /// The unspent notes add up to more than a `u64` holds.
    Overflow,
}

/// Whether `n` counts towards the balance of `account`: the account owns it
/// and no spend record names it.
pub open spec fn counts(n: OwnedNote, spends: Seq<NoteRef>, account: u32) -> bool {
    n.account == account && !spends.contains(n.note)
}

/// The sum of the values of the notes that count towards `account`.
pub open spec fn unspent_total(notes: Seq<OwnedNote>, spends: Seq<NoteRef>, account: u32) -> nat
    decreases notes.len(),
{
    if notes.len() == 0 {
        0
    } else {
        unspent_total(notes.drop_last(), spends, account) + if counts(
            notes.last(),
            spends,
            account,
        ) {
            notes.last().value as nat
        } else {
            0nat
        }
    }
}

proof fn lemma_unspent_total_prefix(
    notes: Seq<OwnedNote>,
    spends: Seq<NoteRef>,
    account: u32,
    i: int,
)
    requires
        0 <= i <= notes.len(),
    ensures
        unspent_total(notes.take(i), spends, account) <= unspent_total(notes, spends, account),
    decreases notes.len() - i,
{
    if i < notes.len() {
        lemma_unspent_total_prefix(notes, spends, account, i + 1);
        assert(notes.take(i + 1).drop_last() =~= notes.take(i));
    } else {
        assert(notes.take(i) =~= notes);
    }
}

/// Whether a spend record names `note`.
pub fn is_spent(note: NoteRef, spends: &Vec<NoteRef>) -> (r: bool)
    ensures
        r == spends@.contains(note),
{
    let mut i: usize = 0;
    while i < spends.len()
        invariant
            i <= spends@.len(),
            forall|k: int| 0 <= k < i ==> spends@[k] != note,
        decreases spends@.len() - i,
    {
        if spends[i] == note {
            return true;
        }
        i = i + 1;
    }
    false
}

/// The balance of `account`: the sum of the values of the notes it owns in
/// every pool, less those that a spend record names. A spend record decides,
/// not any flag kept on the note. An account without notes has balance 0.
pub fn get_balance(notes: &Vec<OwnedNote>, spends: &Vec<NoteRef>, account: u32) -> (r: Result<
    u64,
    BalanceError,
>)
    ensures
        r is Ok <==> unspent_total(notes@, spends@, account) <= u64::MAX,
        r matches Ok(v) ==> v == unspent_total(notes@, spends@, account),
        r matches Err(e) ==> e == BalanceError::Overflow,
{
    let mut total: u64 = 0;
    let mut i: usize = 0;
    while i < notes.len()
        invariant
            i <= notes@.len(),
            total == unspent_total(notes@.take(i as int), spends@, account),
        decreases notes@.len() - i,
    {
        let n = notes[i];
        proof {
            assert(notes@.take(i + 1).drop_last() =~= notes@.take(i as int));
            assert(notes@.take(i + 1).last() == n);
        }
        if n.account == account && !is_spent(n.note, spends) {
            if total > u64::MAX - n.value {
                proof {
                    lemma_unspent_total_prefix(notes@, spends@, account, i + 1);
                }
                return Err(BalanceError::Overflow);
            }
            total = total + n.value;
        }
        i = i + 1;
    }
    assert(notes@.take(i as int) =~= notes@);
    Ok(total)
}

/// A note of value `v` received by an account, with no spend recorded, makes
/// that account's balance `v`; once a spend of it is recorded the balance is
/// back to 0.
pub proof fn lemma_receive_then_spend(n: OwnedNote)
    ensures
        unspent_total(seq![n], Seq::<NoteRef>::empty(), n.account) == n.value,
        unspent_total(seq![n], seq![n.note], n.account) == 0,
{
    let none = Seq::<NoteRef>::empty();
    assert(seq![n].drop_last() =~= Seq::<OwnedNote>::empty());
    assert(unspent_total(Seq::<OwnedNote>::empty(), none, n.account) == 0);
    assert(unspent_total(Seq::<OwnedNote>::empty(), seq![n.note], n.account) == 0);
    assert(!none.contains(n.note));
    assert(seq![n].last() == n);
    assert(seq![n.note][0] == n.note);
    assert(seq![n.note].contains(n.note));
}

proof fn lemma_spend_of_other(notes: Seq<OwnedNote>, spends: Seq<NoteRef>, x: NoteRef, account: u32)
    requires
        forall|i: int| 0 <= i < notes.len() ==> (#[trigger] notes[i]).note != x,
    ensures
        unspent_total(notes, spends.push(x), account) == unspent_total(notes, spends, account),
    decreases notes.len(),
{
    if notes.len() > 0 {
        assert forall|i: int| 0 <= i < notes.drop_last().len() implies (#[trigger] notes.drop_last()[i]).note
            != x by {
            assert(notes.drop_last()[i] == notes[i]);
        }
        lemma_spend_of_other(notes.drop_last(), spends, x, account);
        let y = notes.last().note;
        assert(notes[notes.len() - 1] == notes.last());
        assert(spends.push(x).contains(y) <==> spends.contains(y)) by {
            if spends.push(x).contains(y) {
                let k = choose|k: int| 0 <= k < spends.push(x).len() && spends.push(x)[k] == y;
                assert(k < spends.len());
                assert(spends[k] == y);
            }
            if spends.contains(y) {
                let k = choose|k: int| 0 <= k < spends.len() && spends[k] == y;
                assert(spends.push(x)[k] == y);
            }
        }
    }
}

/// In any store: a note newly received by an account, which no spend names,
/// raises that account's balance by exactly its value; once the spend of
/// that note is recorded, and no other note shares its identity, the balance
/// is back where it was.
pub proof fn lemma_receive_then_spend_in_store(notes: Seq<OwnedNote>, spends: Seq<NoteRef>, n: OwnedNote)
    requires
        !spends.contains(n.note),
        forall|i: int| 0 <= i < notes.len() ==> (#[trigger] notes[i]).note != n.note,
    ensures
        unspent_total(notes.push(n), spends, n.account) == unspent_total(notes, spends, n.account)
            + n.value,
        unspent_total(notes.push(n), spends.push(n.note), n.account) == unspent_total(
            notes,
            spends,
            n.account,
        ),
{
    assert(notes.push(n).drop_last() =~= notes);
    assert(notes.push(n).last() == n);
    assert(spends.push(n.note)[spends.len() as int] == n.note);
    assert(spends.push(n.note).contains(n.note));
    lemma_spend_of_other(notes, spends, n.note, n.account);
}

} // verus!
