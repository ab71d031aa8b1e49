//! The persisted form of a record: an 8-byte little-endian counter, a
//! 4-byte little-endian entry count, then each entry as a 4-byte
//! little-endian byte-length prefix, the link's UTF-8 bytes, and the
//! 32-byte submitter address. Encoding and decoding are exact inverses on
//! well-formed records.

use crate::identity::Address;
use crate::record::{
    entries_encoded_len, entry_encoded_len, lemma_entries_encoded_len_cons,
    lemma_entries_encoded_len_lower, lemma_entry_len_le_entries_len, record_encoded_len,
    BaseAccount, BaseAccountView, ItemStruct, ItemStructView, RECORD_CAPACITY,
};
use vstd::bytes::{
    lemma_auto_spec_u32_to_from_le_bytes, lemma_auto_spec_u64_to_from_le_bytes,
    spec_u32_from_le_bytes, spec_u32_to_le_bytes, spec_u64_from_le_bytes, spec_u64_to_le_bytes,
    u32_from_le_bytes, u32_to_le_bytes, u64_from_le_bytes, u64_to_le_bytes,
};
use vstd::prelude::*;
use vstd::slice::{slice_index_get, slice_subrange, slice_to_vec};
use vstd::utf8::{
    decode_utf8, encode_utf8, encode_utf8_decode_utf8, encode_utf8_valid_utf8, valid_utf8,
};

verus! {

broadcast use vstd::slice::group_slice_axioms, vstd::array::group_array_axioms;

/// The persisted bytes of one entry: byte-length prefix, UTF-8 link
/// bytes, submitter address.
pub open spec fn spec_encode_entry(e: ItemStructView) -> Seq<u8> {
    spec_u32_to_le_bytes(encode_utf8(e.gif_link).len() as u32) + encode_utf8(e.gif_link)
        + e.user_address
}

/// The persisted bytes of a sequence of entries, in order.
pub open spec fn spec_encode_entries(s: Seq<ItemStructView>) -> Seq<u8>
    decreases s.len(),
{
    if s.len() == 0 {
        Seq::empty()
    } else {
        spec_encode_entry(s[0]) + spec_encode_entries(s.drop_first())
    }
}

/// The persisted bytes of a whole record.
pub open spec fn spec_encode_record(v: BaseAccountView) -> Seq<u8> {
    spec_u64_to_le_bytes(v.total_gifs) + spec_u32_to_le_bytes(v.gif_list.len() as u32)
        + spec_encode_entries(v.gif_list)
}

/// Encoding one more entry appends that entry's bytes.
pub proof fn lemma_spec_encode_entries_push(t: Seq<ItemStructView>, e: ItemStructView)
    ensures
        spec_encode_entries(t.push(e)) == spec_encode_entries(t) + spec_encode_entry(e),
    decreases t.len(),
{
    if t.len() == 0 {
        let u = t.push(e);
        assert(u[0] == e);
        assert(u.drop_first() =~= Seq::<ItemStructView>::empty());
        assert(spec_encode_entries(Seq::<ItemStructView>::empty()) == Seq::<u8>::empty());
        assert(spec_encode_entries(u) == spec_encode_entry(e) + Seq::<u8>::empty());
        assert(t =~= Seq::<ItemStructView>::empty());
        assert(spec_encode_entries(u) =~= spec_encode_entries(t) + spec_encode_entry(e));
    } else {
        assert(t.push(e)[0] == t[0]);
        assert(t.push(e).drop_first() =~= t.drop_first().push(e));
        lemma_spec_encode_entries_push(t.drop_first(), e);
        assert(spec_encode_entry(t[0]) + (spec_encode_entries(t.drop_first())
            + spec_encode_entry(e)) =~= (spec_encode_entry(t[0]) + spec_encode_entries(
            t.drop_first(),
        )) + spec_encode_entry(e));
    }
}

/// For a well-formed entry the encoded bytes are as many as the entry's
/// encoded length says.
pub proof fn lemma_spec_encode_entry_len(e: ItemStructView)
    requires
        e.wf(),
    ensures
        spec_encode_entry(e).len() == entry_encoded_len(e),
{
    lemma_auto_spec_u32_to_from_le_bytes();
}

/// For well-formed entries the encoded bytes are as many as the
/// sequence's encoded length says.
pub proof fn lemma_spec_encode_entries_len(s: Seq<ItemStructView>)
    requires
        forall|i: int| 0 <= i < s.len() ==> (#[trigger] s[i]).wf(),
    ensures
        spec_encode_entries(s).len() == entries_encoded_len(s),
    decreases s.len(),
{
    if s.len() > 0 {
        assert(forall|i: int|
            0 <= i < s.drop_first().len() ==> (#[trigger] s.drop_first()[i]).wf());
        lemma_spec_encode_entries_len(s.drop_first());
        lemma_spec_encode_entry_len(s[0]);
        lemma_entries_encoded_len_cons(s);
    }
}

/// For a record with well-formed entries, the encoded bytes are as many
/// as the record's encoded length says.
pub proof fn lemma_spec_encode_record_len(v: BaseAccountView)
    requires
        forall|i: int| 0 <= i < v.gif_list.len() ==> (#[trigger] v.gif_list[i]).wf(),
    ensures
        spec_encode_record(v).len() == record_encoded_len(v),
{
    lemma_auto_spec_u64_to_from_le_bytes();
    lemma_auto_spec_u32_to_from_le_bytes();
    lemma_spec_encode_entries_len(v.gif_list);
}

/// Decoding of `n` length-prefixed entries. Succeeds only when the bytes
/// hold exactly `n` entries, each with a whole length prefix, link bytes
/// that are valid UTF-8, and a full 32-byte address, with nothing left
/// over.
pub open spec fn spec_decode_entries(b: Seq<u8>, n: nat) -> Option<Seq<ItemStructView>>
    decreases n,
{
    if n == 0 {
        if b.len() == 0 {
            Some(Seq::empty())
        } else {
            None
        }
    } else if b.len() < 4 {
        None
    } else {
        let l = spec_u32_from_le_bytes(b.subrange(0, 4)) as int;
        if b.len() < 4 + l + 32 {
            None
        } else if !valid_utf8(b.subrange(4, 4 + l)) {
            None
        } else {
            let e = ItemStructView {
                gif_link: decode_utf8(b.subrange(4, 4 + l)),
                user_address: b.subrange(4 + l, 4 + l + 32),
            };
            match spec_decode_entries(b.skip(4 + l + 32), (n - 1) as nat) {
                Some(rest) => Some(seq![e] + rest),
                None => None,
            }
        }
    }
}

/// Decoding of a whole record. Succeeds only when the counter and the
/// entry count agree and the remaining bytes hold exactly that many
/// entries.
pub open spec fn spec_decode_record(b: Seq<u8>) -> Option<BaseAccountView> {
    if b.len() < 12 {
        None
    } else {
        let total = spec_u64_from_le_bytes(b.subrange(0, 8));
        let count = spec_u32_from_le_bytes(b.subrange(8, 12));
        if total != count as u64 {
            None
        } else {
            match spec_decode_entries(b.skip(12), count as nat) {
                Some(entries) => Some(BaseAccountView { total_gifs: total, gif_list: entries }),
                None => None,
            }
        }
    }
}

/// Decoding inverts encoding on any sequence of well-formed entries
/// whose lengths fit the record slot.
pub proof fn lemma_decode_entries_of_encode(s: Seq<ItemStructView>)
    requires
        forall|i: int| 0 <= i < s.len() ==> (#[trigger] s[i]).wf(),
        forall|i: int|
            0 <= i < s.len() ==> entry_encoded_len(#[trigger] s[i]) <= RECORD_CAPACITY,
    ensures
        spec_decode_entries(spec_encode_entries(s), s.len()) == Some(s),
    decreases s.len(),
{
    lemma_auto_spec_u32_to_from_le_bytes();
    if s.len() > 0 {
        let e = s[0];
        let lb = encode_utf8(e.gif_link);
        let l = lb.len() as int;
        let eb = spec_encode_entry(e);
        let rest = spec_encode_entries(s.drop_first());
        let b = spec_encode_entries(s);
        assert(b == eb + rest);
        assert(eb.len() == 4 + l + 32) by {
            lemma_spec_encode_entry_len(e);
        }
        assert(l <= RECORD_CAPACITY);
        assert(b.subrange(0, 4) =~= spec_u32_to_le_bytes(l as u32));
        assert(spec_u32_from_le_bytes(b.subrange(0, 4)) == l as u32);
        assert(spec_u32_from_le_bytes(b.subrange(0, 4)) as int == l);
        assert(b.len() >= 4 + l + 32);
        assert(b.subrange(4, 4 + l) =~= lb);
        encode_utf8_valid_utf8(e.gif_link);
        encode_utf8_decode_utf8(e.gif_link);
        assert(decode_utf8(b.subrange(4, 4 + l)) == e.gif_link);
        assert(b.subrange(4 + l, 4 + l + 32) =~= e.user_address);
        assert(b.skip(4 + l + 32) =~= rest);
        assert(forall|i: int|
            0 <= i < s.drop_first().len() ==> (#[trigger] s.drop_first()[i]).wf());
        assert(forall|i: int|
            0 <= i < s.drop_first().len() ==> entry_encoded_len(#[trigger] s.drop_first()[i])
                <= RECORD_CAPACITY);
        lemma_decode_entries_of_encode(s.drop_first());
        let ed = ItemStructView {
            gif_link: decode_utf8(b.subrange(4, 4 + l)),
            user_address: b.subrange(4 + l, 4 + l + 32),
        };
        assert(ed == e);
        assert(seq![e] + s.drop_first() =~= s);
    }
}

/// Round trip: decoding the encoding of any well-formed record yields
/// exactly that record.
pub proof fn lemma_record_round_trip(v: BaseAccountView)
    requires
        v.wf(),
    ensures
        spec_decode_record(spec_encode_record(v)) == Some(v),
{
    lemma_auto_spec_u64_to_from_le_bytes();
    lemma_auto_spec_u32_to_from_le_bytes();
    lemma_entries_encoded_len_lower(v.gif_list);
    let b = spec_encode_record(v);
    let tb = spec_u64_to_le_bytes(v.total_gifs);
    let cb = spec_u32_to_le_bytes(v.gif_list.len() as u32);
    let eb = spec_encode_entries(v.gif_list);
    assert(b == tb + cb + eb);
    assert(b.len() >= 12);
    assert(b.subrange(0, 8) =~= tb);
    assert(b.subrange(8, 12) =~= cb);
    assert(spec_u64_from_le_bytes(b.subrange(0, 8)) == v.total_gifs);
    assert(v.gif_list.len() < 250);
    assert(spec_u32_from_le_bytes(b.subrange(8, 12)) == v.gif_list.len() as u32);
    assert(b.skip(12) =~= eb);
    assert(forall|i: int|
        0 <= i < v.gif_list.len() ==> entry_encoded_len(#[trigger] v.gif_list[i])
            <= RECORD_CAPACITY) by {
        assert forall|i: int| 0 <= i < v.gif_list.len() implies entry_encoded_len(
            #[trigger] v.gif_list[i],
        ) <= RECORD_CAPACITY by {
            lemma_entry_len_le_entries_len(v.gif_list, i);
        }
    }
    lemma_decode_entries_of_encode(v.gif_list);
}

/// Exactness of entry decoding: whenever `n` entries decode from some
/// bytes, those bytes are exactly the entries' encoding, there are
/// exactly `n` of them, and each is well formed.
pub proof fn lemma_decode_entries_exact(b: Seq<u8>, n: nat)
    requires
        spec_decode_entries(b, n) is Some,
    ensures
        spec_decode_entries(b, n) matches Some(s) ==> spec_encode_entries(s) == b && s.len() == n
            && (forall|i: int| 0 <= i < s.len() ==> (#[trigger] s[i]).wf()),
    decreases n,
{
    lemma_auto_spec_u32_to_from_le_bytes();
    if n == 0 {
        assert(b.len() == 0);
        assert(b =~= Seq::<u8>::empty());
        assert(spec_encode_entries(Seq::<ItemStructView>::empty()) == Seq::<u8>::empty());
    } else {
        let l = spec_u32_from_le_bytes(b.subrange(0, 4)) as int;
        let link = b.subrange(4, 4 + l);
        let addr = b.subrange(4 + l, 4 + l + 32);
        let e = ItemStructView { gif_link: decode_utf8(link), user_address: addr };
        let tail = b.skip(4 + l + 32);
        lemma_decode_entries_exact(tail, (n - 1) as nat);
        let rest = spec_decode_entries(tail, (n - 1) as nat)->Some_0;
        let s = seq![e] + rest;
        assert(spec_decode_entries(b, n) == Some(s));
        vstd::utf8::decode_utf8_encode_utf8(link);
        assert(encode_utf8(decode_utf8(link)) == link);
        assert(encode_utf8(e.gif_link).len() == l);
        assert(spec_u32_to_le_bytes(spec_u32_from_le_bytes(b.subrange(0, 4))) == b.subrange(
            0,
            4,
        ));
        assert(spec_encode_entry(e) =~= b.subrange(0, 4 + l + 32));
        assert(s[0] == e);
        assert(s.drop_first() =~= rest);
        assert(spec_encode_entries(s) == spec_encode_entry(e) + spec_encode_entries(rest));
        assert(spec_encode_entry(e) + tail =~= b);
    }
}

/// Exactness of record decoding: whenever a record decodes from some
/// bytes, those bytes are exactly the record's encoding, and the
/// record's counter matches its entry count.
pub proof fn lemma_decode_record_exact(b: Seq<u8>)
    requires
        spec_decode_record(b) is Some,
    ensures
        spec_decode_record(b) matches Some(v) ==> spec_encode_record(v) == b && v.total_gifs
            == v.gif_list.len(),
{
    lemma_auto_spec_u64_to_from_le_bytes();
    lemma_auto_spec_u32_to_from_le_bytes();
    let total = spec_u64_from_le_bytes(b.subrange(0, 8));
    let count = spec_u32_from_le_bytes(b.subrange(8, 12));
    let tail = b.skip(12);
    lemma_decode_entries_exact(tail, count as nat);
    let s = spec_decode_entries(tail, count as nat)->Some_0;
    let v = BaseAccountView { total_gifs: total, gif_list: s };
    assert(spec_decode_record(b) == Some(v));
    assert(s.len() == count as nat);
    assert(spec_u64_to_le_bytes(spec_u64_from_le_bytes(b.subrange(0, 8))) == b.subrange(0, 8));
    assert(spec_u32_to_le_bytes(spec_u32_from_le_bytes(b.subrange(8, 12))) == b.subrange(8, 12));
    assert(v.gif_list.len() as u32 == count);
    assert(spec_encode_record(v) =~= b);
}

/// Relies on `String::from_utf8`: it returns `Ok` exactly when the bytes
/// are valid UTF-8, and the returned string then decodes those bytes.
#[verifier::external_body]
fn bytes_to_string(bytes: Vec<u8>) -> (r: Option<String>)
    ensures
        match r {
            Some(s) => valid_utf8(bytes@) && s@ == decode_utf8(bytes@),
            None => !valid_utf8(bytes@),
        },
{
    match String::from_utf8(bytes) {
        Ok(s) => Some(s),
        Err(_) => None,
    }
}

/// Encodes a record into its persisted bytes.
pub fn encode_record(account: &BaseAccount) -> (out: Vec<u8>)
    requires
        record_encoded_len(account@) <= RECORD_CAPACITY,
    ensures
        out@ == spec_encode_record(account@),
        out@.len() == record_encoded_len(account@),
{
    proof {
        lemma_auto_spec_u64_to_from_le_bytes();
        lemma_auto_spec_u32_to_from_le_bytes();
        lemma_entries_encoded_len_lower(account@.gif_list);
        assert(forall|i: int|
            0 <= i < account@.gif_list.len() ==> (#[trigger] account@.gif_list[i]).wf());
        lemma_spec_encode_record_len(account@);
    }
    let ghost evs = account@.gif_list;
    let ghost header = spec_u64_to_le_bytes(account@.total_gifs) + spec_u32_to_le_bytes(
        evs.len() as u32,
    );
    let mut out = u64_to_le_bytes(account.total_gifs);
    let count: u32 = account.gif_list.len() as u32;
    let mut cb = u32_to_le_bytes(count);
    out.append(&mut cb);
    proof {
        assert(evs.take(0) =~= Seq::<ItemStructView>::empty());
        assert(spec_encode_entries(Seq::<ItemStructView>::empty()) == Seq::<u8>::empty());
        assert(out@ =~= header + spec_encode_entries(evs.take(0)));
    }
    let mut j: usize = 0;
    while j < account.gif_list.len()
        invariant
            j <= account.gif_list.len(),
            evs == account@.gif_list,
            evs.len() == account.gif_list@.len(),
            header == spec_u64_to_le_bytes(account@.total_gifs) + spec_u32_to_le_bytes(
                evs.len() as u32,
            ),
            out@ == header + spec_encode_entries(evs.take(j as int)),
            record_encoded_len(account@) <= RECORD_CAPACITY,
        decreases account.gif_list.len() - j,
    {
        let e = &account.gif_list[j];
        proof {
            assert(e@ == evs[j as int]);
            lemma_entry_len_le_entries_len(evs, j as int);
        }
        let lb = e.gif_link.as_str().as_bytes();
        let mut lenb = u32_to_le_bytes(lb.len() as u32);
        out.append(&mut lenb);
        let mut lv = slice_to_vec(lb);
        out.append(&mut lv);
        let mut av = slice_to_vec(e.user_address.bytes.as_slice());
        out.append(&mut av);
        proof {
            lemma_spec_encode_entries_push(evs.take(j as int), evs[j as int]);
            assert(evs.take(j + 1) =~= evs.take(j as int).push(evs[j as int]));
            assert(out@ =~= header + spec_encode_entries(evs.take(j + 1)));
        }
        j = j + 1;
    }
    proof {
        assert(evs.take(evs.len() as int) =~= evs);
    }
    out
}

/// Decodes persisted bytes back into a record; yields the record exactly
/// when `spec_decode_record` accepts the bytes, and nothing otherwise.
pub fn decode_record(bytes: &[u8]) -> (r: Option<BaseAccount>)
    ensures
        match r {
            Some(account) => spec_decode_record(bytes@) == Some(account@),
            None => spec_decode_record(bytes@) is None,
        },
{
    if bytes.len() < 12 {
        return None;
    }
    let total = u64_from_le_bytes(slice_subrange(bytes, 0, 8));
    let count = u32_from_le_bytes(slice_subrange(bytes, 8, 12));
    if total != count as u64 {
        return None;
    }
    let ghost tail0 = bytes@.skip(12);
    let mut entries: Vec<ItemStruct> = Vec::new();
    let mut pos: usize = 12;
    let mut k: u32 = 0;
    proof {
        assert(entries@.map_values(|e: ItemStruct| e@) =~= Seq::<ItemStructView>::empty());
    }
    while k < count
        invariant
            12 <= pos <= bytes@.len(),
            k <= count,
            entries@.len() == k,
            tail0 == bytes@.skip(12),
            total == spec_u64_from_le_bytes(bytes@.subrange(0, 8)),
            count == spec_u32_from_le_bytes(bytes@.subrange(8, 12)),
            total == count as u64,
            bytes@.len() >= 12,
            spec_decode_entries(tail0, count as nat) == (match spec_decode_entries(
                bytes@.skip(pos as int),
                (count - k) as nat,
            ) {
                Some(rest) => Some(entries@.map_values(|e: ItemStruct| e@) + rest),
                None => None::<Seq<ItemStructView>>,
            }),
        decreases count - k,
    {
        let ghost b = bytes@.skip(pos as int);
        let ghost n = (count - k) as nat;
        if bytes.len() - pos < 4 {
            proof {
                assert(b.len() < 4);
                assert(spec_decode_entries(b, n) is None);
            }
            return None;
        }
        let l32 = u32_from_le_bytes(slice_subrange(bytes, pos, pos + 4));
        let l = l32 as usize;
        proof {
            assert(b.subrange(0, 4) =~= bytes@.subrange(pos as int, pos + 4));
            assert(l == spec_u32_from_le_bytes(b.subrange(0, 4)) as int);
        }
        let rem = bytes.len() - pos - 4;
        if rem < l {
            proof {
                assert(b.len() < 4 + l + 32);
                assert(spec_decode_entries(b, n) is None);
            }
            return None;
        }
        if rem - l < 32 {
            proof {
                assert(b.len() < 4 + l + 32);
                assert(spec_decode_entries(b, n) is None);
            }
            return None;
        }
        proof {
            assert(b.len() >= 4 + l + 32);
        }
        let link_slice = slice_subrange(bytes, pos + 4, pos + 4 + l);
        proof {
            assert(link_slice@ =~= b.subrange(4, 4 + l));
        }
        let link_vec = slice_to_vec(link_slice);
        match bytes_to_string(link_vec) {
            None => {
                proof {
                    assert(!valid_utf8(b.subrange(4, 4 + l)));
                    assert(spec_decode_entries(b, n) is None);
                }
                return None;
            },
            Some(gif_link) => {
                let addr_slice = slice_subrange(bytes, pos + 4 + l, pos + 4 + l + 32);
                proof {
                    assert(addr_slice@ =~= b.subrange(4 + l, 4 + l + 32));
                }
                let mut buf: [u8; 32] = [0u8; 32];
                let mut m: usize = 0;
                while m < 32
                    invariant
                        m <= 32,
                        addr_slice@.len() == 32,
                        forall|t: int| 0 <= t < m ==> buf@[t] == addr_slice@[t],
                    decreases 32 - m,
                {
                    buf[m] = *slice_index_get(addr_slice, m);
                    m = m + 1;
                }
                proof {
                    assert(buf@ =~= addr_slice@);
                }
                let ghost evs_old = entries@.map_values(|e: ItemStruct| e@);
                let entry = ItemStruct { gif_link, user_address: Address { bytes: buf } };
                let ghost ev = entry@;
                proof {
                    assert(ev == ItemStructView {
                        gif_link: decode_utf8(b.subrange(4, 4 + l)),
                        user_address: b.subrange(4 + l, 4 + l + 32),
                    });
                }
                entries.push(entry);
                pos = pos + 4 + l + 32;
                k = k + 1;
                proof {
                    assert(bytes@.skip(pos as int) =~= b.skip(4 + l + 32));
                    assert(spec_decode_entries(b, n) == (match spec_decode_entries(
                        b.skip(4 + l + 32),
                        (n - 1) as nat,
                    ) {
                        Some(rest) => Some(seq![ev] + rest),
                        None => None::<Seq<ItemStructView>>,
                    }));
                    assert(entries@.map_values(|e: ItemStruct| e@) =~= evs_old.push(ev));
                    if spec_decode_entries(b.skip(4 + l + 32), (n - 1) as nat) is Some {
                        let rest = spec_decode_entries(b.skip(4 + l + 32), (n - 1) as nat)->Some_0;
                        assert(evs_old + (seq![ev] + rest) =~= evs_old.push(ev) + rest);
                    }
                }
            },
        }
    }
    proof {
        assert(bytes@.skip(pos as int).len() == bytes@.len() - pos);
    }
    if pos != bytes.len() {
        proof {
            assert(spec_decode_entries(bytes@.skip(pos as int), 0) is None);
        }
        return None;
    }
    proof {
        assert(bytes@.skip(pos as int).len() == 0);
        assert(spec_decode_entries(bytes@.skip(pos as int), 0) == Some(
            Seq::<ItemStructView>::empty(),
        ));
        assert(entries@.map_values(|e: ItemStruct| e@) + Seq::<ItemStructView>::empty()
            =~= entries@.map_values(|e: ItemStruct| e@));
    }
    let account = BaseAccount { total_gifs: total, gif_list: entries };
    proof {
        assert(account@.gif_list =~= entries@.map_values(|e: ItemStruct| e@));
        assert(spec_decode_record(bytes@) == Some(account@));
    }
    Some(account)
}

} // verus!
