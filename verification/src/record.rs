//! The persisted data model: an `ItemStruct` is one submitted link together
//! with the identity that submitted it; a `BaseAccount` is the record kept
//! at one address, a counter plus the append-only list of entries.
//!
//! The persisted form of a record (see `crate::codec`) must fit in a fixed
//! 9000-byte slot, so every record carries a well-formedness condition
//! bounding its encoded length.

use crate::identity::Address;
use vstd::prelude::*;
use vstd::utf8::encode_utf8;

verus! {

/// Fixed capacity, in bytes, of the storage slot holding one record.
pub const RECORD_CAPACITY: usize = 9000;

/// Encoded bytes preceding the entries: an 8-byte counter and a 4-byte
/// entry count.
pub const RECORD_HEADER_LEN: usize = 12;

/// Encoded bytes of one entry beyond its link text: a 4-byte length prefix
/// and a 32-byte submitter address.
pub const ENTRY_OVERHEAD: usize = 36;

/// One submitted link together with the address of its submitter.
/// Immutable once appended to a record.
pub struct ItemStruct {
    pub gif_link: String,
    pub user_address: Address,
}

/// The mathematical value of an `ItemStruct`: the link as a sequence of
/// characters and the submitter as a sequence of 32 bytes.
pub ghost struct ItemStructView {
    pub gif_link: Seq<char>,
    pub user_address: Seq<u8>,
}

impl View for ItemStruct {
    type V = ItemStructView;

    open spec fn view(&self) -> ItemStructView {
        ItemStructView { gif_link: self.gif_link@, user_address: self.user_address@ }
    }
}

/// The record stored at one address: how many entries were appended so
/// far, and the entries themselves in append order.
pub struct BaseAccount {
    pub total_gifs: u64,
    pub gif_list: Vec<ItemStruct>,
}

/// The mathematical value of a `BaseAccount`.
pub ghost struct BaseAccountView {
    pub total_gifs: u64,
    pub gif_list: Seq<ItemStructView>,
}

impl View for BaseAccount {
    type V = BaseAccountView;

    open spec fn view(&self) -> BaseAccountView {
        BaseAccountView {
            total_gifs: self.total_gifs,
            gif_list: self.gif_list@.map_values(|e: ItemStruct| e@),
        }
    }
}

/// Encoded length, in bytes, of one entry: length prefix, UTF-8 link
/// bytes, submitter address.
pub open spec fn entry_encoded_len(e: ItemStructView) -> int {
    ENTRY_OVERHEAD + encode_utf8(e.gif_link).len()
}

/// Encoded length, in bytes, of a sequence of entries.
pub open spec fn entries_encoded_len(s: Seq<ItemStructView>) -> int
    decreases s.len(),
{
    if s.len() == 0 {
        0
    } else {
        entries_encoded_len(s.drop_last()) + entry_encoded_len(s.last())
    }
}

/// Encoded length, in bytes, of a whole record.
pub open spec fn record_encoded_len(v: BaseAccountView) -> int {
    RECORD_HEADER_LEN + entries_encoded_len(v.gif_list)
}

impl ItemStructView {
    /// Validity of one entry: the submitter is a full 32-byte address.
    pub open spec fn wf(self) -> bool {
        self.user_address.len() == 32
    }
}

impl BaseAccountView {
    /// Validity of a record: the counter equals the number of entries,
    /// every entry is valid, and the encoded form fits the fixed slot.
    pub open spec fn wf(self) -> bool {
        &&& self.total_gifs == self.gif_list.len()
        &&& forall|i: int| 0 <= i < self.gif_list.len() ==> (#[trigger] self.gif_list[i]).wf()
        &&& record_encoded_len(self) <= RECORD_CAPACITY
    }

    /// The value a freshly initialized record holds: a zero counter and
    /// no entries.
    pub open spec fn empty() -> BaseAccountView {
        BaseAccountView { total_gifs: 0, gif_list: Seq::empty() }
    }
}

/// Entry lengths are at least the fixed overhead, so a sequence of
/// entries encodes to at least 36 bytes per entry.
pub proof fn lemma_entries_encoded_len_lower(s: Seq<ItemStructView>)
    ensures
        entries_encoded_len(s) >= ENTRY_OVERHEAD * s.len(),
    decreases s.len(),
{
    if s.len() > 0 {
        lemma_entries_encoded_len_lower(s.drop_last());
    }
}

/// Appending one entry adds exactly that entry's encoded length.
pub proof fn lemma_entries_encoded_len_push(s: Seq<ItemStructView>, e: ItemStructView)
    ensures
        entries_encoded_len(s.push(e)) == entries_encoded_len(s) + entry_encoded_len(e),
{
    assert(s.push(e).drop_last() =~= s);
    assert(s.push(e).last() == e);
}

/// A well-formed record holds fewer than 250 entries, so its counter is
/// far from overflowing.
pub proof fn lemma_wf_record_count_bound(v: BaseAccountView)
    requires
        v.wf(),
    ensures
        v.gif_list.len() < 250,
        v.total_gifs < 250,
{
    lemma_entries_encoded_len_lower(v.gif_list);
}

impl BaseAccount {
    /// A freshly initialized record: zero counter, no entries.
    pub fn new() -> (r: BaseAccount)
        ensures
            r@ == BaseAccountView::empty(),
    {
        let r = BaseAccount { total_gifs: 0, gif_list: Vec::new() };
        proof {
            assert(r@.gif_list =~= Seq::<ItemStructView>::empty());
        }
        r
    }

    /// Computes the encoded length of this record, summing the fixed
    /// header and each entry's length prefix, link bytes and address.
    pub fn encoded_len(&self) -> (n: usize)
        requires
            record_encoded_len(self@) <= RECORD_CAPACITY,
        ensures
            n == record_encoded_len(self@),
    {
        let ghost entries = self@.gif_list;
        let mut n: usize = RECORD_HEADER_LEN;
        let mut j: usize = 0;
        proof {
            assert(entries.take(0) =~= Seq::<ItemStructView>::empty());
        }
        while j < self.gif_list.len()
            invariant
                j <= self.gif_list.len(),
                entries == self@.gif_list,
                entries.len() == self.gif_list.len(),
                forall|i: int| 0 <= i < entries.len() ==> entries[i] == self.gif_list@[i]@,
                n == RECORD_HEADER_LEN + entries_encoded_len(entries.take(j as int)),
                record_encoded_len(self@) <= RECORD_CAPACITY,
            decreases self.gif_list.len() - j,
        {
            let link_len = self.gif_list[j].gif_link.as_str().len();
            proof {
                assert(entries.take(j + 1).drop_last() =~= entries.take(j as int));
                assert(entries.take(j + 1).last() == entries[j as int]);
                lemma_entries_encoded_len_split(entries, j + 1);
                lemma_entries_encoded_len_lower(entries.skip(j + 1));
                assert(entries.take(entries.len() as int) =~= entries);
            }
            n = n + ENTRY_OVERHEAD + link_len;
            j = j + 1;
        }
        proof {
            assert(entries.take(entries.len() as int) =~= entries);
        }
        n
    }
}

/// The encoded length of a sequence of entries splits at any point into
/// the lengths of the prefix and the rest.
pub proof fn lemma_entries_encoded_len_split(s: Seq<ItemStructView>, i: int)
    requires
        0 <= i <= s.len(),
    ensures
        entries_encoded_len(s) == entries_encoded_len(s.take(i)) + entries_encoded_len(s.skip(i)),
    decreases s.len() - i,
{
    if i == s.len() {
        assert(s.take(i) =~= s);
        assert(s.skip(i).len() == 0);
    } else {
        lemma_entries_encoded_len_split(s, i + 1);
        assert(s.take(i + 1).drop_last() =~= s.take(i));
        assert(s.take(i + 1).last() == s[i]);
        lemma_entries_encoded_len_push(s.skip(i).drop_first(), s[i]);
        assert(s.skip(i) =~= seq![s[i]] + s.skip(i + 1));
        assert(s.skip(i + 1) =~= s.skip(i).drop_first());
        lemma_entries_encoded_len_cons(s.skip(i));
    }
}

/// Each entry's encoded length is at most that of the whole sequence.
pub proof fn lemma_entry_len_le_entries_len(s: Seq<ItemStructView>, i: int)
    requires
        0 <= i < s.len(),
    ensures
        entry_encoded_len(s[i]) <= entries_encoded_len(s),
{
    lemma_entries_encoded_len_split(s, i);
    lemma_entries_encoded_len_cons(s.skip(i));
    lemma_entries_encoded_len_lower(s.take(i));
    lemma_entries_encoded_len_lower(s.skip(i).drop_first());
    assert(s.skip(i)[0] == s[i]);
}

/// Unfolding the encoded length of a non-empty sequence at its head.
pub proof fn lemma_entries_encoded_len_cons(s: Seq<ItemStructView>)
    requires
        s.len() > 0,
    ensures
        entries_encoded_len(s) == entry_encoded_len(s[0]) + entries_encoded_len(s.drop_first()),
    decreases s.len(),
{
    if s.len() == 1 {
        assert(s.drop_first().len() == 0);
        assert(s.drop_last().len() == 0);
        assert(entries_encoded_len(s.drop_first()) == 0);
        assert(entries_encoded_len(s.drop_last()) == 0);
        assert(entries_encoded_len(s) == entries_encoded_len(s.drop_last()) + entry_encoded_len(
            s.last(),
        ));
        assert(s.last() == s[0]);
    } else {
        lemma_entries_encoded_len_cons(s.drop_last());
        assert(s.drop_last().drop_first() =~= s.drop_first().drop_last());
        assert(s.drop_last()[0] == s[0]);
        assert(s.drop_first().last() == s.last());
        assert(s.drop_first().len() > 0);
        assert(entries_encoded_len(s.drop_first()) == entries_encoded_len(
            s.drop_first().drop_last(),
        ) + entry_encoded_len(s.drop_first().last()));
        assert(entries_encoded_len(s) == entries_encoded_len(s.drop_last()) + entry_encoded_len(
            s.last(),
        ));
    }
}

} // verus!
