//! The ledger: per-identity grant counts and last-grant times, and the
//! atomic eligibility-and-update rule.

use vstd::prelude::*;

verus! {

use crate::identity::Identity;

/// Minimum time that must pass after a successful grant before the same
/// identity may receive another, in the clock's units.
pub const COOLDOWN_PERIOD: u64 = 5;

/// One identity's record: its cumulative grant count and the time of its
/// most recent grant.
#[derive(Clone, Copy)]
struct Entry {
    id: Identity,
    balance: u128,
    last_time: u64,
}

/// The eligibility rule, a pure function of the stored last-grant time and
/// the clock: a grant is permitted exactly when the cooldown period has
/// elapsed, with the boundary itself included. A stored time of 0 means
/// "never granted", so a fresh identity is eligible from time
/// `COOLDOWN_PERIOD` on.
pub open spec fn eligible(last_time: u64, now: u64) -> bool {
    now >= last_time + COOLDOWN_PERIOD
}

/// How one `give_cupcake_to` call relates the ledger state after it
/// (`post`) to the state before it (`pre`): the outcome is decided by the
/// eligibility rule alone; on a grant the count and the time of `user` move
/// together, as one indivisible update; a refused call changes nothing; and
/// no other identity's record moves either way.
pub open spec fn grant_transition(
    pre: VendingMachine,
    post: VendingMachine,
    user: Identity,
    now: u64,
    granted: bool,
) -> bool {
    &&& granted == eligible(pre.last_grant_time(user), now)
    &&& (granted ==> {
        &&& post.balance_of(user) == pre.balance_of(user) + 1
        &&& post.last_grant_time(user) == now
    })
    &&& (!granted ==> post == pre)
    &&& (forall|other: Identity|
        other != user ==> post.balance_of(other) == pre.balance_of(other)
            && post.last_grant_time(other) == pre.last_grant_time(other))
}

/// The first record for `id` in `s`, if any. The ledger keeps at most one
/// record per identity, so "first" is simply "the" record.
spec fn find_entry(s: Seq<Entry>, id: Identity) -> Option<Entry>
    decreases s.len(),
{
    if s.len() == 0 {
        None
    } else if s[0].id == id {
        Some(s[0])
    } else {
        find_entry(s.drop_first(), id)
    }
}

/// If `i` is the first position whose record is for `id`, the lookup finds
/// that record.
proof fn lemma_find_entry_at(s: Seq<Entry>, id: Identity, i: int)
    requires
        0 <= i < s.len(),
        s[i].id == id,
        forall|j: int| 0 <= j < i ==> s[j].id != id,
    ensures
        find_entry(s, id) == Some(s[i]),
    decreases i,
{
    if i > 0 {
        lemma_find_entry_at(s.drop_first(), id, i - 1);
    }
}

/// If no position holds a record for `id`, the lookup finds nothing.
proof fn lemma_find_entry_absent(s: Seq<Entry>, id: Identity)
    requires
        forall|j: int| 0 <= j < s.len() ==> s[j].id != id,
    ensures
        find_entry(s, id) is None,
    decreases s.len(),
{
    if s.len() > 0 {
        lemma_find_entry_absent(s.drop_first(), id);
    }
}

/// Replacing the record at one position with a record for the same
/// identity leaves the lookup of every other identity as it was.
proof fn lemma_find_entry_update_other(s: Seq<Entry>, i: int, e: Entry, id: Identity)
    requires
        0 <= i < s.len(),
        s[i].id == e.id,
        id != e.id,
    ensures
        find_entry(s.update(i, e), id) == find_entry(s, id),
    decreases i,
{
    let t = s.update(i, e);
    if i == 0 {
        assert(t.drop_first() =~= s.drop_first());
    } else {
        assert(t[0] == s[0]);
        if s[0].id != id {
            lemma_find_entry_update_other(s.drop_first(), i - 1, e, id);
            assert(t.drop_first() =~= s.drop_first().update(i - 1, e));
        }
    }
}

/// Appending a record leaves the lookup of every other identity as it was.
proof fn lemma_find_entry_push_other(s: Seq<Entry>, e: Entry, id: Identity)
    requires
        id != e.id,
    ensures
        find_entry(s.push(e), id) == find_entry(s, id),
    decreases s.len(),
{
    let t = s.push(e);
    if s.len() == 0 {
        assert(t[0] == e);
        assert(t.drop_first() =~= Seq::<Entry>::empty());
        assert(find_entry(t.drop_first(), id) is None);
        assert(find_entry(t, id) is None);
        assert(find_entry(s, id) is None);
    } else {
        assert(t[0] == s[0]);
        if s[0].id != id {
            lemma_find_entry_push_other(s.drop_first(), e, id);
            assert(t.drop_first() =~= s.drop_first().push(e));
            assert(find_entry(t, id) == find_entry(t.drop_first(), id));
            assert(find_entry(s, id) == find_entry(s.drop_first(), id));
        }
    }
}

/// The reward ledger. It owns both per-identity mappings — grant count and
/// last-grant time — and is the only thing that mutates them. Records are
/// created lazily on first grant and never removed; an absent record reads
/// as count 0, time 0.
pub struct VendingMachine {
    entries: Vec<Entry>,
}

impl VendingMachine {
    /// The grant count stored for `id`: 0 if `id` was never granted to.
    pub closed spec fn balance_of(self, id: Identity) -> u128 {
        match find_entry(self.entries@, id) {
            Some(e) => e.balance,
            None => 0,
        }
    }

    /// The last-grant time stored for `id`: 0 if `id` was never granted to.
    pub closed spec fn last_grant_time(self, id: Identity) -> u64 {
        match find_entry(self.entries@, id) {
            Some(e) => e.last_time,
            None => 0,
        }
    }

    /// Well-formedness: one record per identity.
    pub closed spec fn wf(self) -> bool {
        forall|i: int, j: int|
            0 <= i < j < self.entries@.len() ==> self.entries@[i].id != self.entries@[j].id
    }

    /// An empty ledger: nobody has been granted anything.
    pub fn new() -> (r: VendingMachine)
        ensures
            r.wf(),
            forall|id: Identity| r.balance_of(id) == 0,
            forall|id: Identity| r.last_grant_time(id) == 0,
    {
        VendingMachine { entries: Vec::new() }
    }

    /// The position of the record for `user`, if one exists; the ledger's
    /// records are scanned front to back.
    fn find_index(&self, user: Identity) -> (r: Option<usize>)
        ensures
            match r {
                Some(i) => {
                    &&& (i as int) < self.entries@.len()
                    &&& self.entries@[i as int].id == user
                    &&& forall|j: int| 0 <= j < i as int ==> self.entries@[j].id != user
                },
                None => forall|j: int| 0 <= j < self.entries@.len() ==> self.entries@[j].id != user,
            },
    {
        let mut i: usize = 0;
        while i < self.entries.len()
            invariant
                i <= self.entries@.len(),
                forall|j: int| 0 <= j < i as int ==> self.entries@[j].id != user,
            decreases self.entries@.len() - i,
        {
            if self.entries[i].id == user {
                return Some(i);
            }
            i = i + 1;
        }
        None
    }

    /// Decide and apply a grant for `user` at time `now`, atomically: if
    /// the cooldown has elapsed, raise `user`'s count by exactly 1 and
    /// record `now` as the grant time, both in one step, and report true;
    /// otherwise change nothing and report false. Ineligibility is a
    /// normal outcome, not a fault. The count bound in the `requires` is
    /// the machine limit of the counter's width.
    pub fn give_cupcake_to(&mut self, user: Identity, now: u64) -> (granted: bool)
        requires
            old(self).wf(),
            old(self).balance_of(user) < u128::MAX,
        ensures
            final(self).wf(),
            grant_transition(*old(self), *final(self), user, now, granted),
    {
        let idx = self.find_index(user);
        proof {
            match idx {
                Some(i) => lemma_find_entry_at(self.entries@, user, i as int),
                None => lemma_find_entry_absent(self.entries@, user),
            }
        }
        let last: u64 = match idx {
            Some(i) => self.entries[i].last_time,
            None => 0,
        };
        if is_eligible(last, now) {
            match idx {
                Some(i) => {
                    let e = self.entries[i];
                    let updated = Entry { id: e.id, balance: e.balance + 1, last_time: now };
                    self.entries.set(i, updated);
                    proof {
                        lemma_find_entry_at(self.entries@, user, i as int);
                        assert forall|other: Identity| other != user implies find_entry(
                            self.entries@,
                            other,
                        ) == find_entry(old(self).entries@, other) by {
                            lemma_find_entry_update_other(
                                old(self).entries@,
                                i as int,
                                updated,
                                other,
                            );
                        }
                        assert(forall|k: int|
                            0 <= k < self.entries@.len() ==> self.entries@[k].id == old(
                                self,
                            ).entries@[k].id);
                    }
                },
                None => {
                    let fresh = Entry { id: user, balance: 1, last_time: now };
                    self.entries.push(fresh);
                    proof {
                        lemma_find_entry_at(self.entries@, user, self.entries@.len() - 1);
                        assert forall|other: Identity| other != user implies find_entry(
                            self.entries@,
                            other,
                        ) == find_entry(old(self).entries@, other) by {
                            lemma_find_entry_push_other(old(self).entries@, fresh, other);
                        }
                    }
                },
            }
            true
        } else {
            false
        }
    }

    /// Read `user`'s grant count: 0 for an identity never granted to. A
    /// pure read — the ledger is untouched, the result is a function of
    /// the stored state alone, and the read always succeeds.
    pub fn get_cupcake_balance_for(&self, user: Identity) -> (r: Result<u128, Vec<u8>>)
        ensures
            r == Ok::<u128, Vec<u8>>(self.balance_of(user)),
    {
        let idx = self.find_index(user);
        match idx {
            Some(i) => {
                proof {
                    lemma_find_entry_at(self.entries@, user, i as int);
                }
                Ok(self.entries[i].balance)
            },
            None => {
                proof {
                    lemma_find_entry_absent(self.entries@, user);
                }
                Ok(0)
            },
        }
    }
}

/// The derived per-identity state machine, recomputed from the stored time
/// and the clock on every call: may this identity be granted to right now?
pub fn is_eligible(last_time: u64, now: u64) -> (r: bool)
    ensures
        r == eligible(last_time, now),
{
    now as u128 >= last_time as u128 + (COOLDOWN_PERIOD as u128)
}

/// An identity never granted to reads count 0: a fresh ledger holds 0 for
/// every identity (see `VendingMachine::new`), and by this lemma a grant
/// call grants to nobody but the identity it granted to, so a 0 count is
/// carried through every call that does not grant to `id`.
pub proof fn lemma_never_granted_stays_zero(
    pre: VendingMachine,
    post: VendingMachine,
    user: Identity,
    id: Identity,
    now: u64,
    granted: bool,
)
    requires
        grant_transition(pre, post, user, now, granted),
        pre.balance_of(id) == 0,
        !(granted && id == user),
    ensures
        post.balance_of(id) == 0,
{
}

/// A grant attempt within the cooldown window of a successful grant is
/// refused and leaves the ledger exactly as the successful grant left it.
pub proof fn lemma_cooldown_blocks_regrant(
    m0: VendingMachine,
    m1: VendingMachine,
    m2: VendingMachine,
    user: Identity,
    t0: u64,
    t1: u64,
    r1: bool,
)
    requires
        grant_transition(m0, m1, user, t0, true),
        grant_transition(m1, m2, user, t1, r1),
        t1 < t0 + COOLDOWN_PERIOD,
    ensures
        r1 == false,
        m2 == m1,
        m2.balance_of(user) == m1.balance_of(user),
        m2.last_grant_time(user) == t0,
{
}

/// A grant attempt exactly at the end of the cooldown window of a
/// successful grant is allowed: the boundary is inclusive.
pub proof fn lemma_cooldown_boundary_grants(
    m0: VendingMachine,
    m1: VendingMachine,
    m2: VendingMachine,
    user: Identity,
    t0: u64,
    t1: u64,
    r1: bool,
)
    requires
        grant_transition(m0, m1, user, t0, true),
        grant_transition(m1, m2, user, t1, r1),
        t1 == t0 + COOLDOWN_PERIOD,
    ensures
        r1 == true,
        m2.balance_of(user) == m1.balance_of(user) + 1,
        m2.last_grant_time(user) == t1,
{
}

/// Grants to distinct identities are independent: a grant call for one
/// identity moves neither the count nor the cooldown timer of any other.
pub proof fn lemma_grants_are_independent(
    pre: VendingMachine,
    post: VendingMachine,
    user: Identity,
    other: Identity,
    now: u64,
    granted: bool,
)
    requires
        grant_transition(pre, post, user, now, granted),
        other != user,
    ensures
        post.balance_of(other) == pre.balance_of(other),
        post.last_grant_time(other) == pre.last_grant_time(other),
{
}

} // verus!

