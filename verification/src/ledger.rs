//! The ledger service: a keyed store of records, one per address, with the
//! two operations the service offers. `start_stuff_off` creates the record
//! at an address; `add_gif` appends one entry to it. Each operation is
//! gated on a capability token from the external signature verifier and
//! either takes full effect or leaves the store unchanged.
//!
//! The store's mathematical value is a map from addresses (as byte
//! sequences) to record values, and each operation's outcome is fixed by a
//! spec-level transition function (`spec_start_stuff_off`, `spec_add_gif`)
//! of the old map and the inputs alone.

use crate::identity::{Address, Signer};
use crate::record::{
    entries_encoded_len, entry_encoded_len, lemma_entries_encoded_len_lower,
    lemma_entries_encoded_len_push, lemma_wf_record_count_bound, record_encoded_len, BaseAccount,
    BaseAccountView, ItemStruct, ItemStructView, ENTRY_OVERHEAD, RECORD_CAPACITY,
};
use vstd::prelude::*;

verus! {

broadcast use vstd::slice::group_slice_axioms;

/// Why an operation failed. Every error is terminal for the call: the
/// store is left exactly as it was.
#[derive(Clone, Copy, Debug, PartialEq, Eq, Structural)]
pub enum LedgerError {
    /// A record already exists at the target address.
    AlreadyInitialized,
    /// The payer of a record creation did not sign the call.
    UnauthorizedPayer,
    /// The backing store could not allocate the record's slot. The
    /// in-memory store never fails to allocate; the variant is surfaced
    /// by hosts whose durable store can.
    StorageExhausted,
    /// No record exists at the target address.
    RecordNotFound,
    /// The declared submitter of an entry did not sign the call.
    UnauthorizedSubmitter,
    /// Appending the entry would overflow the record's fixed 9000-byte
    /// slot.
    CapacityExceeded,
}

/// The accounts named by a record creation: the address the new record
/// will live at, the identity paying for its slot, and the verifier's
/// token for whoever signed the call.
pub struct StartStuffOff {
    pub base_account: Address,
    pub user: Address,
    pub signer: Signer,
}

/// The accounts named by an append: the address of the record, the
/// identity declared as submitter, and the verifier's token for whoever
/// signed the call.
pub struct AddGif {
    pub base_account: Address,
    pub user: Address,
    pub signer: Signer,
}

/// The durable account store: one slot per created address, each holding
/// that address's record.
pub struct Ledger {
    slots: Vec<(Address, BaseAccount)>,
}

/// No two slots share an address.
pub open spec fn slots_distinct(s: Seq<(Address, BaseAccount)>) -> bool {
    forall|i: int, j: int|
        #![trigger s[i], s[j]]
        0 <= i < j < s.len() ==> s[i].0@ != s[j].0@
}

/// Every slot holds a well-formed record.
pub open spec fn slots_wf(s: Seq<(Address, BaseAccount)>) -> bool {
    &&& slots_distinct(s)
    &&& forall|i: int| 0 <= i < s.len() ==> (#[trigger] s[i]).1@.wf()
}

/// The map a sequence of slots denotes: each slot's address, as bytes,
/// bound to its record's value.
pub open spec fn slots_map(s: Seq<(Address, BaseAccount)>) -> Map<Seq<u8>, BaseAccountView>
    decreases s.len(),
{
    if s.len() == 0 {
        Map::empty()
    } else {
        slots_map(s.drop_last()).insert(s.last().0@, s.last().1@)
    }
}

/// With distinct addresses, the denoted map holds exactly the slots'
/// addresses as keys and each address's own record as its value.
pub proof fn lemma_slots_map_characterize(s: Seq<(Address, BaseAccount)>)
    requires
        slots_distinct(s),
    ensures
        forall|k: Seq<u8>|
            #[trigger] slots_map(s).contains_key(k) ==> exists|i: int|
                0 <= i < s.len() && (#[trigger] s[i]).0@ == k,
        forall|i: int|
            0 <= i < s.len() ==> slots_map(s).contains_key((#[trigger] s[i]).0@),
        forall|i: int| 0 <= i < s.len() ==> slots_map(s)[(#[trigger] s[i]).0@] == s[i].1@,
    decreases s.len(),
{
    if s.len() > 0 {
        let t = s.drop_last();
        let a = s.last().0@;
        assert(slots_distinct(t)) by {
            assert(forall|i: int| 0 <= i < t.len() ==> t[i] == s[i]);
        }
        lemma_slots_map_characterize(t);
        assert(slots_map(s) == slots_map(t).insert(a, s.last().1@));
        assert forall|k: Seq<u8>| #[trigger]
            slots_map(s).contains_key(k) implies exists|i: int|
            0 <= i < s.len() && (#[trigger] s[i]).0@ == k by {
            if k == a {
                assert(s[s.len() - 1].0@ == k);
            } else {
                assert(slots_map(t).contains_key(k));
                let i = choose|i: int| 0 <= i < t.len() && (#[trigger] t[i]).0@ == k;
                assert(s[i].0@ == k);
            }
        }
        assert forall|i: int| 0 <= i < s.len() implies slots_map(s).contains_key(
            (#[trigger] s[i]).0@,
        ) && slots_map(s)[s[i].0@] == s[i].1@ by {
            if i == s.len() - 1 {
                assert(s[i] == s.last());
            } else {
                assert(t[i] == s[i]);
                assert(slots_map(t).contains_key(s[i].0@));
                assert(s[i].0@ != a);
            }
        }
    }
}

impl View for Ledger {
    type V = Map<Seq<u8>, BaseAccountView>;

    closed spec fn view(&self) -> Map<Seq<u8>, BaseAccountView> {
        slots_map(self.slots@)
    }
}

/// The outcome of a record creation, as a function of the store's value
/// and the call's inputs: the new store value and the call's result. The
/// verifier's attestation is checked first, then the address must be
/// fresh; only then is an empty record bound to it.
pub open spec fn spec_start_stuff_off(
    m: Map<Seq<u8>, BaseAccountView>,
    base_account: Seq<u8>,
    user: Seq<u8>,
    signer: Seq<u8>,
) -> (Map<Seq<u8>, BaseAccountView>, Result<(), LedgerError>) {
    if signer != user {
        (m, Err(LedgerError::UnauthorizedPayer))
    } else if m.contains_key(base_account) {
        (m, Err(LedgerError::AlreadyInitialized))
    } else {
        (m.insert(base_account, BaseAccountView::empty()), Ok(()))
    }
}

/// The entry an append call asks to store.
pub open spec fn entry_of(link: Seq<char>, user: Seq<u8>) -> ItemStructView {
    ItemStructView { gif_link: link, user_address: user }
}

/// The outcome of an append, as a function of the store's value and the
/// call's inputs. The verifier's attestation is checked first, then the
/// record must exist and the grown record must still fit its slot; only
/// then is the entry appended and the counter raised by one.
pub open spec fn spec_add_gif(
    m: Map<Seq<u8>, BaseAccountView>,
    base_account: Seq<u8>,
    user: Seq<u8>,
    signer: Seq<u8>,
    link: Seq<char>,
) -> (Map<Seq<u8>, BaseAccountView>, Result<(), LedgerError>) {
    if signer != user {
        (m, Err(LedgerError::UnauthorizedSubmitter))
    } else if !m.contains_key(base_account) {
        (m, Err(LedgerError::RecordNotFound))
    } else {
        let r = m[base_account];
        let e = entry_of(link, user);
        if record_encoded_len(r) + entry_encoded_len(e) > RECORD_CAPACITY {
            (m, Err(LedgerError::CapacityExceeded))
        } else {
            let r2 = BaseAccountView {
                total_gifs: (r.total_gifs + 1) as u64,
                gif_list: r.gif_list.push(e),
            };
            (m.insert(base_account, r2), Ok(()))
        }
    }
}

impl Ledger {
    /// Validity of the store: distinct addresses, well-formed records.
    pub closed spec fn wf(self) -> bool {
        slots_wf(self.slots@)
    }

    /// An empty store, holding no record at any address.
    pub fn new() -> (l: Ledger)
        ensures
            l.wf(),
            l@ == Map::<Seq<u8>, BaseAccountView>::empty(),
    {
        let l = Ledger { slots: Vec::new() };
        proof {
            assert(l.slots@.len() == 0);
        }
        l
    }

    /// Scans the slots for the given address.
    fn find_slot(&self, address: &Address) -> (r: Option<usize>)
        ensures
            match r {
                Some(i) => i < self.slots@.len() && self.slots@[i as int].0@ == address@,
                None => forall|i: int|
                    0 <= i < self.slots@.len() ==> (#[trigger] self.slots@[i]).0@ != address@,
            },
    {
        let mut i: usize = 0;
        while i < self.slots.len()
            invariant
                i <= self.slots@.len(),
                forall|j: int| 0 <= j < i ==> (#[trigger] self.slots@[j]).0@ != address@,
            decreases self.slots@.len() - i,
        {
            if self.slots[i].0.equals(address) {
                return Some(i);
            }
            i = i + 1;
        }
        None
    }

    /// Reads the record at an address, if one was created there.
    pub fn get_record(&self, address: &Address) -> (r: Option<&BaseAccount>)
        requires
            self.wf(),
        ensures
            match r {
                Some(account) => self@.contains_key(address@) && account@ == self@[address@],
                None => !self@.contains_key(address@),
            },
    {
        proof {
            lemma_slots_map_characterize(self.slots@);
        }
        match self.find_slot(address) {
            Some(i) => Some(&self.slots[i].1),
            None => {
                proof {
                    if self@.contains_key(address@) {
                        let i = choose|i: int|
                            0 <= i < self.slots@.len() && (#[trigger] self.slots@[i]).0@
                                == address@;
                        assert(false);
                    }
                }
                None
            },
        }
    }
}

/// Creates the record at `ctx.base_account`, paid for by `ctx.user`, who
/// must have signed the call. On success the store binds the address to a
/// record with a zero counter and no entries; on any error the store is
/// unchanged. The outcome is exactly `spec_start_stuff_off` of the old
/// store and the inputs.
pub fn start_stuff_off(ledger: &mut Ledger, ctx: &StartStuffOff) -> (r: Result<(), LedgerError>)
    requires
        old(ledger).wf(),
    ensures
        final(ledger).wf(),
        final(ledger)@ == spec_start_stuff_off(
            old(ledger)@,
            ctx.base_account@,
            ctx.user@,
            ctx.signer.address@,
        ).0,
        r == spec_start_stuff_off(
            old(ledger)@,
            ctx.base_account@,
            ctx.user@,
            ctx.signer.address@,
        ).1,
{
    if !ctx.signer.address.equals(&ctx.user) {
        return Err(LedgerError::UnauthorizedPayer);
    }
    proof {
        lemma_slots_map_characterize(ledger.slots@);
    }
    match ledger.find_slot(&ctx.base_account) {
        Some(_) => Err(LedgerError::AlreadyInitialized),
        None => {
            let ghost s0 = ledger.slots@;
            proof {
                if ledger@.contains_key(ctx.base_account@) {
                    let i = choose|i: int|
                        0 <= i < s0.len() && (#[trigger] s0[i]).0@ == ctx.base_account@;
                    assert(false);
                }
            }
            let account = BaseAccount::new();
            ledger.slots.push((ctx.base_account, account));
            proof {
                let s1 = ledger.slots@;
                assert(s1.drop_last() =~= s0);
                assert(s1.last() == (ctx.base_account, account));
                assert(slots_map(s1) == slots_map(s0).insert(ctx.base_account@, account@));
                assert(account@ == BaseAccountView::empty());
                assert(entries_encoded_len(Seq::<ItemStructView>::empty()) == 0);
                assert(account@.wf());
                assert(slots_wf(s1)) by {
                    assert(forall|i: int| 0 <= i < s0.len() ==> s1[i] == s0[i]);
                }
            }
            Ok(())
        },
    }
}

/// Appends the entry `{ gif_link, ctx.user }` to the record at
/// `ctx.base_account` and raises its counter by one, provided `ctx.user`
/// signed the call, the record exists, and the grown record still fits
/// its 9000-byte slot; on any error the store is unchanged. The outcome
/// is exactly `spec_add_gif` of the old store and the inputs.
pub fn add_gif(ledger: &mut Ledger, ctx: &AddGif, gif_link: String) -> (r: Result<
    (),
    LedgerError,
>)
    requires
        old(ledger).wf(),
    ensures
        final(ledger).wf(),
        final(ledger)@ == spec_add_gif(
            old(ledger)@,
            ctx.base_account@,
            ctx.user@,
            ctx.signer.address@,
            gif_link@,
        ).0,
        r == spec_add_gif(
            old(ledger)@,
            ctx.base_account@,
            ctx.user@,
            ctx.signer.address@,
            gif_link@,
        ).1,
{
    if !ctx.signer.address.equals(&ctx.user) {
        return Err(LedgerError::UnauthorizedSubmitter);
    }
    proof {
        lemma_slots_map_characterize(ledger.slots@);
    }
    let found = ledger.find_slot(&ctx.base_account);
    match found {
        None => {
            proof {
                if ledger@.contains_key(ctx.base_account@) {
                    let i = choose|i: int|
                        0 <= i < ledger.slots@.len() && (#[trigger] ledger.slots@[i]).0@
                            == ctx.base_account@;
                    assert(false);
                }
            }
            Err(LedgerError::RecordNotFound)
        },
        Some(i) => {
            let ghost s0 = ledger.slots@;
            let ghost m0 = ledger@;
            let ghost rv = s0[i as int].1@;
            proof {
                assert(m0.contains_key(ctx.base_account@));
                assert(m0[ctx.base_account@] == rv);
                assert(rv.wf());
            }
            let link_len = gif_link.as_str().as_bytes().len();
            let cur = ledger.slots[i].1.encoded_len();
            let ghost ev = entry_of(gif_link@, ctx.user@);
            proof {
                assert(entry_encoded_len(ev) == ENTRY_OVERHEAD + link_len);
                lemma_entries_encoded_len_lower(rv.gif_list);
            }
            if link_len > RECORD_CAPACITY || cur + ENTRY_OVERHEAD + link_len > RECORD_CAPACITY {
                return Err(LedgerError::CapacityExceeded);
            }
            proof {
                lemma_wf_record_count_bound(rv);
            }
            let entry = ItemStruct { gif_link, user_address: ctx.user };
            let slot = &mut ledger.slots[i];
            slot.1.gif_list.push(entry);
            slot.1.total_gifs = slot.1.total_gifs + 1;
            proof {
                let s1 = ledger.slots@;
                let r2 = BaseAccountView {
                    total_gifs: (rv.total_gifs + 1) as u64,
                    gif_list: rv.gif_list.push(ev),
                };
                assert(s1 =~= s0.update(i as int, s1[i as int]));
                assert(s1[i as int].0 == s0[i as int].0);
                assert(s1[i as int].1@.gif_list =~= rv.gif_list.push(ev)) by {
                    assert(s1[i as int].1.gif_list@ =~= s0[i as int].1.gif_list@.push(entry));
                }
                assert(s1[i as int].1@ == r2);
                lemma_entries_encoded_len_push(rv.gif_list, ev);
                assert(r2.wf());
                assert(slots_wf(s1)) by {
                    assert(forall|j: int| 0 <= j < s1.len() && j != i ==> s1[j] == s0[j]);
                }
                lemma_slots_map_characterize(s1);
                assert(ledger@ =~= m0.insert(ctx.base_account@, r2)) by {
                    assert(forall|j: int| 0 <= j < s1.len() && j != i ==> s1[j] == s0[j]);
                    assert forall|k: Seq<u8>| #[trigger]
                        slots_map(s1).contains_key(k) implies m0.insert(
                        ctx.base_account@,
                        r2,
                    ).contains_key(k) by {
                        let j = choose|j: int|
                            0 <= j < s1.len() && (#[trigger] s1[j]).0@ == k;
                        if j != i {
                            assert(s0[j].0@ == k);
                        }
                    }
                    assert forall|k: Seq<u8>| #[trigger]
                        m0.insert(ctx.base_account@, r2).contains_key(k) implies slots_map(
                        s1,
                    ).contains_key(k) && slots_map(s1)[k] == m0.insert(
                        ctx.base_account@,
                        r2,
                    )[k] by {
                        if k == ctx.base_account@ {
                            assert(s1[i as int].0@ == k);
                            assert(slots_map(s1)[k] == s1[i as int].1@);
                        } else {
                            let j = choose|j: int|
                                0 <= j < s0.len() && (#[trigger] s0[j]).0@ == k;
                            assert(j != i);
                            assert(s1[j].0@ == k);
                            assert(slots_map(s1)[k] == s1[j].1@);
                            assert(m0[k] == s0[j].1@);
                        }
                    }
                }
            }
            Ok(())
        },
    }
}

/// Law: in a valid store every record is well formed — its counter
/// equals its entry count, every entry carries a full 32-byte submitter
/// address, and its encoded form fits the fixed 9000-byte slot.
pub proof fn lemma_store_records_wf(l: Ledger, k: Seq<u8>)
    requires
        l.wf(),
        l@.contains_key(k),
    ensures
        l@[k].wf(),
{
    lemma_slots_map_characterize(l.slots@);
    let i = choose|i: int| 0 <= i < l.slots@.len() && (#[trigger] l.slots@[i]).0@ == k;
    assert(l@[k] == l.slots@[i].1@);
}

/// Law: at an address with no record, creating one (signed by its payer)
/// succeeds; creating it again afterwards fails with
/// `AlreadyInitialized` and leaves the store as the first call left it.
pub proof fn lemma_initialize_twice(m: Map<Seq<u8>, BaseAccountView>, a: Seq<u8>, user: Seq<u8>)
    requires
        !m.contains_key(a),
    ensures
        spec_start_stuff_off(m, a, user, user).1 == Ok::<(), LedgerError>(()),
        spec_start_stuff_off(spec_start_stuff_off(m, a, user, user).0, a, user, user).1 == Err::<
            (),
            LedgerError,
        >(LedgerError::AlreadyInitialized),
        spec_start_stuff_off(spec_start_stuff_off(m, a, user, user).0, a, user, user).0
            == spec_start_stuff_off(m, a, user, user).0,
{
}

/// Law: at an address with no record, any append (signed by its
/// submitter) fails with `RecordNotFound` and leaves the store
/// unchanged.
pub proof fn lemma_append_not_found(
    m: Map<Seq<u8>, BaseAccountView>,
    a: Seq<u8>,
    user: Seq<u8>,
    link: Seq<char>,
)
    requires
        !m.contains_key(a),
    ensures
        spec_add_gif(m, a, user, user, link) == (m, Err::<(), LedgerError>(
            LedgerError::RecordNotFound,
        )),
{
}

/// Law: an append whose signer differs from its declared submitter fails
/// with `UnauthorizedSubmitter` and leaves the store unchanged, whatever
/// the address or link.
pub proof fn lemma_append_unauthorized(
    m: Map<Seq<u8>, BaseAccountView>,
    a: Seq<u8>,
    user: Seq<u8>,
    signer: Seq<u8>,
    link: Seq<char>,
)
    requires
        signer != user,
    ensures
        spec_add_gif(m, a, user, signer, link) == (m, Err::<(), LedgerError>(
            LedgerError::UnauthorizedSubmitter,
        )),
{
}

/// Law: an append whose entry would push the record past its 9000-byte
/// slot fails with `CapacityExceeded` and leaves the store — in
/// particular the record's counter and entries — unchanged.
pub proof fn lemma_append_capacity_exceeded(
    m: Map<Seq<u8>, BaseAccountView>,
    a: Seq<u8>,
    user: Seq<u8>,
    link: Seq<char>,
)
    requires
        m.contains_key(a),
        record_encoded_len(m[a]) + entry_encoded_len(entry_of(link, user)) > RECORD_CAPACITY,
    ensures
        spec_add_gif(m, a, user, user, link) == (m, Err::<(), LedgerError>(
            LedgerError::CapacityExceeded,
        )),
{
}

/// A sequence of submitter-signed append calls applied in order; each
/// call is a `(link, submitter)` pair.
pub open spec fn spec_append_all(
    m: Map<Seq<u8>, BaseAccountView>,
    a: Seq<u8>,
    calls: Seq<(Seq<char>, Seq<u8>)>,
) -> Map<Seq<u8>, BaseAccountView>
    decreases calls.len(),
{
    if calls.len() == 0 {
        m
    } else {
        spec_append_all(
            spec_add_gif(m, a, calls[0].1, calls[0].1, calls[0].0).0,
            a,
            calls.drop_first(),
        )
    }
}

/// Every call of the sequence succeeds when applied in order.
pub open spec fn spec_appends_ok(
    m: Map<Seq<u8>, BaseAccountView>,
    a: Seq<u8>,
    calls: Seq<(Seq<char>, Seq<u8>)>,
) -> bool
    decreases calls.len(),
{
    calls.len() == 0 || {
        &&& spec_add_gif(m, a, calls[0].1, calls[0].1, calls[0].0).1 == Ok::<(), LedgerError>(())
        &&& spec_appends_ok(
            spec_add_gif(m, a, calls[0].1, calls[0].1, calls[0].0).0,
            a,
            calls.drop_first(),
        )
    }
}

/// The entries a sequence of calls asks to store, in call order.
pub open spec fn entries_of_calls(calls: Seq<(Seq<char>, Seq<u8>)>) -> Seq<ItemStructView> {
    calls.map_values(|c: (Seq<char>, Seq<u8>)| entry_of(c.0, c.1))
}

/// Law: after a sequence of successful appends to a record whose counter
/// matches its entry count, the counter has grown by exactly the number
/// of calls, and the entries are the old ones followed by exactly the
/// appended `(link, submitter)` pairs, in call order; records at other
/// addresses are untouched.
pub proof fn lemma_append_sequence(
    m: Map<Seq<u8>, BaseAccountView>,
    a: Seq<u8>,
    calls: Seq<(Seq<char>, Seq<u8>)>,
)
    requires
        m.contains_key(a),
        m[a].total_gifs == m[a].gif_list.len(),
        spec_appends_ok(m, a, calls),
    ensures
        spec_append_all(m, a, calls).contains_key(a),
        spec_append_all(m, a, calls)[a].total_gifs == m[a].total_gifs + calls.len(),
        spec_append_all(m, a, calls)[a].gif_list == m[a].gif_list + entries_of_calls(calls),
        forall|k: Seq<u8>|
            k != a ==> #[trigger] spec_append_all(m, a, calls).contains_key(k) == m.contains_key(
                k,
            ),
        forall|k: Seq<u8>|
            k != a && m.contains_key(k) ==> #[trigger] spec_append_all(m, a, calls)[k] == m[k],
    decreases calls.len(),
{
    if calls.len() == 0 {
        assert(m[a].gif_list + entries_of_calls(calls) =~= m[a].gif_list);
    } else {
        let r = m[a];
        let e = entry_of(calls[0].0, calls[0].1);
        let step = spec_add_gif(m, a, calls[0].1, calls[0].1, calls[0].0);
        let m1 = step.0;
        let r1 = BaseAccountView {
            total_gifs: (r.total_gifs + 1) as u64,
            gif_list: r.gif_list.push(e),
        };
        assert(step.1 == Ok::<(), LedgerError>(()));
        assert(record_encoded_len(r) + entry_encoded_len(e) <= RECORD_CAPACITY);
        assert(r.gif_list.len() < 250) by {
            lemma_entries_encoded_len_lower(r.gif_list);
        }
        assert(m1 == m.insert(a, r1));
        assert(r1.total_gifs == r.total_gifs + 1);
        assert(r1.total_gifs == r1.gif_list.len());
        lemma_append_sequence(m1, a, calls.drop_first());
        assert(entries_of_calls(calls.drop_first()) =~= entries_of_calls(calls).drop_first());
        assert(r1.gif_list + entries_of_calls(calls.drop_first()) =~= r.gif_list
            + entries_of_calls(calls));
    }
}

} // verus!
