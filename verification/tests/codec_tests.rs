use gif_portal::codec::{decode_record, encode_record};
use gif_portal::identity::Address;
use gif_portal::record::{BaseAccount, ItemStruct};

fn entry(link: &str, b: u8) -> ItemStruct {
    ItemStruct { gif_link: String::from(link), user_address: Address::new([b; 32]) }
}

#[test]
fn empty_record_encodes_to_twelve_zero_bytes() {
    let account = BaseAccount::new();
    let bytes = encode_record(&account);
    assert_eq!(bytes, vec![0u8; 12]);
}

#[test]
fn one_entry_record_encodes_to_expected_bytes() {
    let account = BaseAccount { total_gifs: 1, gif_list: vec![entry("ab", 7)] };
    let bytes = encode_record(&account);
    let mut expected: Vec<u8> = Vec::new();
    expected.extend_from_slice(&[1, 0, 0, 0, 0, 0, 0, 0]); // counter
    expected.extend_from_slice(&[1, 0, 0, 0]); // entry count
    expected.extend_from_slice(&[2, 0, 0, 0]); // link byte length
    expected.extend_from_slice(b"ab");
    expected.extend_from_slice(&[7u8; 32]);
    assert_eq!(bytes, expected);
}

#[test]
fn round_trip_preserves_record() {
    let account = BaseAccount {
        total_gifs: 3,
        gif_list: vec![
            entry("https://example.com/1.gif", 2),
            entry("", 3),
            entry("caf\u{e9} \u{1F980}", 4), // multi-byte UTF-8 survives the trip
        ],
    };
    let bytes = encode_record(&account);
    let decoded = decode_record(bytes.as_slice()).expect("encoding decodes");
    assert_eq!(decoded.total_gifs, 3);
    assert_eq!(decoded.gif_list.len(), 3);
    for (got, want) in decoded.gif_list.iter().zip(account.gif_list.iter()) {
        assert_eq!(got.gif_link, want.gif_link);
        assert_eq!(got.user_address.bytes, want.user_address.bytes);
    }
}

#[test]
fn decode_then_encode_reproduces_bytes() {
    let account = BaseAccount { total_gifs: 2, gif_list: vec![entry("x", 1), entry("yz", 2)] };
    let bytes = encode_record(&account);
    let decoded = decode_record(bytes.as_slice()).expect("encoding decodes");
    assert_eq!(encode_record(&decoded), bytes);
}

#[test]
fn decode_rejects_short_input() {
    assert!(decode_record(&[]).is_none());
    assert!(decode_record(&[0u8; 11]).is_none());
}

#[test]
fn decode_rejects_counter_entry_count_mismatch() {
    let mut bytes = vec![0u8; 12];
    bytes[0] = 1; // counter says one entry, count says zero
    assert!(decode_record(bytes.as_slice()).is_none());
}

#[test]
fn decode_rejects_truncated_entry() {
    let account = BaseAccount { total_gifs: 1, gif_list: vec![entry("abc", 5)] };
    let bytes = encode_record(&account);
    assert!(decode_record(&bytes[..bytes.len() - 1]).is_none());
}

#[test]
fn decode_rejects_trailing_bytes() {
    let account = BaseAccount { total_gifs: 1, gif_list: vec![entry("abc", 5)] };
    let mut bytes = encode_record(&account);
    bytes.push(0);
    assert!(decode_record(bytes.as_slice()).is_none());
}

#[test]
fn decode_rejects_invalid_utf8_link() {
    let mut bytes: Vec<u8> = Vec::new();
    bytes.extend_from_slice(&[1, 0, 0, 0, 0, 0, 0, 0]);
    bytes.extend_from_slice(&[1, 0, 0, 0]);
    bytes.extend_from_slice(&[1, 0, 0, 0]);
    bytes.push(0xFF); // not UTF-8
    bytes.extend_from_slice(&[7u8; 32]);
    assert!(decode_record(bytes.as_slice()).is_none());
}

#[test]
fn decode_accepts_hand_written_encoding() {
    let mut bytes: Vec<u8> = Vec::new();
    bytes.extend_from_slice(&[1, 0, 0, 0, 0, 0, 0, 0]);
    bytes.extend_from_slice(&[1, 0, 0, 0]);
    bytes.extend_from_slice(&[3, 0, 0, 0]);
    bytes.extend_from_slice(b"gif");
    bytes.extend_from_slice(&[9u8; 32]);
    let decoded = decode_record(bytes.as_slice()).expect("valid encoding decodes");
    assert_eq!(decoded.total_gifs, 1);
    assert_eq!(decoded.gif_list.len(), 1);
    assert_eq!(decoded.gif_list[0].gif_link, "gif");
    assert_eq!(decoded.gif_list[0].user_address.bytes, [9u8; 32]);
}

#[test]
fn encoded_len_matches_encoding_length() {
    let account = BaseAccount { total_gifs: 2, gif_list: vec![entry("abcd", 1), entry("\u{e9}", 2)] };
    let bytes = encode_record(&account);
    assert_eq!(account.encoded_len(), bytes.len());
    // 12 + (36 + 4) + (36 + 2): the accented character takes two bytes.
    assert_eq!(bytes.len(), 90);
}
