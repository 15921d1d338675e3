use crypto::hmac::Hmac;
use crypto::mac::Mac;
use crypto::sha2::Sha256;
use jwt_cracker::candidate::{decode, decode_into, DecodeError, MAX_KEY_LEN};
use jwt_cracker::mac::{tags_match, verify};
use jwt_cracker::partition::{index_space, partition};
use jwt_cracker::search::{
    check_candidate, find_in_range, length_ranges, scan_range, search, validate, ScanOutcome,
    SearchError,
};
use jwt_cracker::signal::{FoundFlag, ResultSlot};
use jwt_cracker::token::{parse_token, TokenError};

const TOKEN: &str = "eyJhbGciOiJIUzI1NiIsInR5cCI6IkpXVCJ9.\
                     eyJzdWIiOiIxMjM0NTY3ODkwIiwibmFtZSI6IkpvaG4gRG9lIiwiYWRtaW4iOnRydWV9.\
                     cAOIAifu3fykvhkHpbuhbvtH807-Z2rI1FS3vX1XMjE";

fn tag_of(key: &[u8], message: &[u8]) -> Vec<u8> {
    let mut mac = Hmac::new(Sha256::new(), key);
    mac.input(message);
    mac.result().code().to_vec()
}

fn hex(bytes: &[u8]) -> String {
    bytes.iter().map(|b| format!("{:02x}", b)).collect()
}

fn assert_covers(ranges: &[(u64, u64)], total: u64, workers: usize) {
    assert_eq!(ranges.len(), workers);
    assert_eq!(ranges[0].0, 0);
    assert_eq!(ranges[workers - 1].1, total);
    for w in 0..workers {
        assert!(ranges[w].0 <= ranges[w].1);
        if w + 1 < workers {
            assert_eq!(ranges[w].1, ranges[w + 1].0);
        }
    }
    for x in 0..total {
        let holders = ranges.iter().filter(|r| r.0 <= x && x < r.1).count();
        assert_eq!(holders, 1);
    }
}

#[test]
fn check_works() {
    let token = parse_token(TOKEN.as_bytes()).expect("token with three segments");
    let found = search(b"Sn1f", 4, 1, &token.signing_input, &token.target_tag);
    assert_eq!(found, Ok(Some(b"Sn1f".to_vec())));
}

#[test]
fn decode_two_symbols_length_two_in_order() {
    let keys: Vec<Vec<u8>> = (0..4).map(|i| decode(i, 2, b"ab").unwrap()).collect();
    assert_eq!(
        keys,
        vec![b"aa".to_vec(), b"ab".to_vec(), b"ba".to_vec(), b"bb".to_vec()]
    );
    assert_eq!(decode(4, 2, b"ab"), Err(DecodeError::IndexOutOfRange));
}

#[test]
fn decode_most_significant_symbol_first() {
    assert_eq!(decode(5, 3, b"xyz").unwrap(), b"xyz".to_vec());
    assert_eq!(decode(26, 3, b"xyz").unwrap(), b"zzz".to_vec());
    assert_eq!(decode(27, 3, b"xyz"), Err(DecodeError::IndexOutOfRange));
}

#[test]
fn decode_length_zero_and_empty_alphabet() {
    assert_eq!(decode(0, 0, b"ab").unwrap(), Vec::<u8>::new());
    assert_eq!(decode(1, 0, b"ab"), Err(DecodeError::IndexOutOfRange));
    assert_eq!(decode(0, 0, b"").unwrap(), Vec::<u8>::new());
    assert_eq!(decode(0, 1, b""), Err(DecodeError::IndexOutOfRange));
}

#[test]
fn decode_length_too_long() {
    assert_eq!(decode(0, MAX_KEY_LEN + 1, b"a"), Err(DecodeError::LengthTooLong));
    assert_eq!(decode(0, MAX_KEY_LEN, b"a").unwrap(), vec![b'a'; MAX_KEY_LEN]);
}

#[test]
fn partition_empty_space() {
    let r = partition(0, 3);
    assert_eq!(r, vec![(0, 0), (0, 0), (0, 0)]);
    assert_covers(&r, 0, 3);
}

#[test]
fn partition_fewer_indices_than_workers() {
    let r = partition(2, 4);
    assert_eq!(r, vec![(0, 1), (1, 2), (2, 2), (2, 2)]);
    assert_covers(&r, 2, 4);
}

#[test]
fn partition_divisible_total() {
    let r = partition(12, 4);
    assert_eq!(r, vec![(0, 3), (3, 6), (6, 9), (9, 12)]);
    assert_covers(&r, 12, 4);
}

#[test]
fn partition_non_divisible_total() {
    let r = partition(10, 4);
    assert_eq!(r, vec![(0, 3), (3, 6), (6, 9), (9, 10)]);
    assert_covers(&r, 10, 4);
    let r = partition(10, 6);
    assert_eq!(r, vec![(0, 2), (2, 4), (4, 6), (6, 8), (8, 10), (10, 10)]);
    assert_covers(&r, 10, 6);
}

#[test]
fn partition_single_worker_and_largest_total() {
    assert_eq!(partition(7, 1), vec![(0, 7)]);
    let r = partition(u64::MAX, 2);
    assert_eq!(r, vec![(0, 1u64 << 63), (1u64 << 63, u64::MAX)]);
}

#[test]
fn index_space_counts_and_overflow() {
    assert_eq!(index_space(26, 4), Some(456_976));
    assert_eq!(index_space(10, 0), Some(1));
    assert_eq!(index_space(0, 3), Some(0));
    assert_eq!(index_space(256, 7), Some(1u64 << 56));
    assert_eq!(index_space(256, 8), None);
    assert_eq!(index_space(2, 64), None);
    assert_eq!(index_space(2, 63), Some(1u64 << 63));
}

#[test]
fn verify_known_vector() {
    let message = b"what do ya want for nothing?";
    let target = tag_of(b"Jefe", message);
    assert_eq!(
        hex(&target),
        "5bdcc146bf60754e6a042426089575c75a003f089d2739839dec58b964ec3843"
    );
    assert!(verify(b"Jefe", message, &target));
    assert!(!verify(b"Jeff", message, &target));
    assert!(!verify(b"Jefe", message, &target[..31]));
}

#[test]
fn verify_accepts_own_tag() {
    for key in [b"".to_vec(), b"k".to_vec(), b"pass".to_vec(), vec![7u8; 80]] {
        let target = tag_of(&key, b"input");
        assert!(verify(&key, b"input", &target));
    }
}

#[test]
fn tags_match_needs_equal_length_and_bytes() {
    assert!(tags_match(b"abc", b"abc"));
    assert!(!tags_match(b"abc", b"abd"));
    assert!(!tags_match(b"abc", b"ab"));
    assert!(tags_match(b"", b""));
}

#[test]
fn parse_token_splits_segments() {
    let t = parse_token(TOKEN.as_bytes()).unwrap();
    let expected_input = &TOKEN.as_bytes()[..TOKEN.rfind('.').unwrap()];
    assert_eq!(t.signing_input, expected_input.to_vec());
    assert_eq!(t.target_tag.len(), 32);
    assert_eq!(
        hex(&t.target_tag),
        "7003880227eeddfca4be1907a5bba16efb47f34efe676ac8d454b7bd7d573231"
    );
}

#[test]
fn parse_token_two_segments_refused() {
    assert!(matches!(parse_token(b"aGVhZA.cGF5bG9hZA"), Err(TokenError::SegmentCount)));
    assert!(matches!(parse_token(b"a.b.c.d"), Err(TokenError::SegmentCount)));
    assert!(matches!(parse_token(b""), Err(TokenError::SegmentCount)));
}

#[test]
fn parse_token_bad_tag_encoding() {
    assert!(matches!(parse_token(b"a.b.!!"), Err(TokenError::TagEncoding)));
}

#[test]
fn parse_token_empty_segments() {
    let t = parse_token(b"..").unwrap();
    assert_eq!(t.signing_input, b".".to_vec());
    assert!(t.target_tag.is_empty());
}

#[test]
fn search_finds_pass() {
    let input = b"header.payload";
    let target = tag_of(b"pass", input);
    let found = search(b"abcdefghijklmnopqrstuvwxyz", 4, 1, input, &target);
    assert_eq!(found, Ok(Some(b"pass".to_vec())));
}

#[test]
fn search_digits_exhausted() {
    let input = b"header.payload";
    let target = tag_of(b"pass", input);
    assert_eq!(search(b"0123456789", 2, 1, input, &target), Ok(None));
    assert_eq!(search(b"0123456789", 2, 3, input, &target), Ok(None));
}

#[test]
fn search_same_key_for_any_worker_count() {
    let input = b"header.payload";
    let target = tag_of(b"cab", input);
    for workers in [1usize, 2, 3, 7, 64] {
        assert_eq!(search(b"abc", 3, workers, input, &target), Ok(Some(b"cab".to_vec())));
    }
}

#[test]
fn search_degenerate_configurations() {
    let target = tag_of(b"a", b"m");
    assert_eq!(search(b"", 3, 2, b"m", &target), Ok(None));
    assert_eq!(search(b"a", 0, 2, b"m", &target), Ok(None));
    assert_eq!(search(b"a", 1, 2, b"m", &target), Ok(Some(b"a".to_vec())));
}

#[test]
fn search_refuses_bad_configuration() {
    let target = tag_of(b"a", b"m");
    assert_eq!(search(b"a", MAX_KEY_LEN + 1, 1, b"m", &target), Err(SearchError::KeyTooLong));
    let alphabet: Vec<u8> = (0u8..62).collect();
    assert_eq!(search(&alphabet, 11, 1, b"m", &target), Err(SearchError::IndexSpaceOverflow));
    assert_eq!(validate(62, 10), Ok(()));
    assert_eq!(validate(62, 11), Err(SearchError::IndexSpaceOverflow));
    assert_eq!(validate(1, MAX_KEY_LEN + 1), Err(SearchError::KeyTooLong));
    assert_eq!(validate(0, 1000), Ok(()));
}

#[test]
fn length_ranges_cover_space() {
    let r = length_ranges(3, 2, 4, 4);
    assert_eq!(r, vec![(0, 3), (3, 6), (6, 9), (9, 9)]);
}

#[test]
fn check_candidate_decodes_and_verifies() {
    let target = tag_of(b"ba", b"m");
    let mut buf = vec![0u8; 2];
    assert!(check_candidate(2, b"ab", b"m", &target, &mut buf));
    assert_eq!(buf, b"ba".to_vec());
    assert!(!check_candidate(1, b"ab", b"m", &target, &mut buf));
    assert_eq!(buf, b"ab".to_vec());
}

#[test]
fn decode_into_reuses_buffer() {
    let mut buf = vec![0u8; 3];
    assert_eq!(decode_into(7, b"01", &mut buf), Ok(()));
    assert_eq!(buf, b"111".to_vec());
    assert_eq!(decode_into(2, b"01", &mut buf), Ok(()));
    assert_eq!(buf, b"010".to_vec());
    assert_eq!(decode_into(8, b"01", &mut buf), Err(DecodeError::IndexOutOfRange));
    assert_eq!(buf.len(), 3);
    let mut long = vec![9u8; MAX_KEY_LEN + 1];
    assert_eq!(decode_into(0, b"01", &mut long), Err(DecodeError::LengthTooLong));
    assert_eq!(long, vec![9u8; MAX_KEY_LEN + 1]);
}

#[test]
fn scan_range_outcomes() {
    let target = tag_of(b"ba", b"m");
    let flag = FoundFlag::new();
    assert_eq!(
        scan_range(&flag, 0, 4, 2, b"ab", b"m", &target),
        ScanOutcome::Found(b"ba".to_vec())
    );
    assert_eq!(scan_range(&flag, 0, 2, 2, b"ab", b"m", &target), ScanOutcome::Exhausted);
    assert_eq!(scan_range(&flag, 3, 3, 2, b"ab", b"m", &target), ScanOutcome::Exhausted);
    assert!(flag.claim());
    assert_eq!(scan_range(&flag, 0, 4, 2, b"ab", b"m", &target), ScanOutcome::Cancelled);
    assert_eq!(scan_range(&flag, 2, 2, 2, b"ab", b"m", &target), ScanOutcome::Exhausted);
}

#[test]
fn find_in_range_first_match() {
    let target = tag_of(b"b", b"m");
    assert_eq!(find_in_range(0, 2, 1, b"ab", b"m", &target), Some(b"b".to_vec()));
    assert_eq!(find_in_range(0, 1, 1, b"ab", b"m", &target), None);
}

#[test]
fn found_flag_single_winner() {
    let flag = FoundFlag::new();
    assert!(!flag.is_found());
    assert!(flag.claim());
    assert!(flag.is_found());
    assert!(!flag.claim());
}

#[test]
fn result_slot_write_once() {
    let mut slot = ResultSlot::new();
    assert_eq!(slot.key(), None);
    assert!(slot.fill(b"first".to_vec()));
    assert!(!slot.fill(b"second".to_vec()));
    assert_eq!(slot.key(), Some(b"first".to_vec()));
}
