use rewards::account::ACCOUNT_BYTES;
use rewards::codec::{abi_encode_u64, word_is_positive};
use rewards::{Account, RewardError};

#[test]
fn parse_accepts_either_case_and_prefix() {
    let lower = Account::parse("0xabcdef0123456789abcdef0123456789abcdef01").unwrap();
    let upper = Account::parse("0xABCDEF0123456789ABCDEF0123456789ABCDEF01").unwrap();
    let bare = Account::parse("abcdef0123456789abcdef0123456789abcdef01").unwrap();
    assert!(lower == upper);
    assert!(lower == bare);
}

#[test]
fn parse_rejects_malformed_spellings() {
    let cases = [
        "",
        "0x",
        "0x1234",
        "0xabcdef0123456789abcdef0123456789abcdef0",
        "0xabcdef0123456789abcdef0123456789abcdef012",
        "0xabcdef0123456789abcdef0123456789abcdefgg",
        "1xabcdef0123456789abcdef0123456789abcdef01",
        "0yabcdef0123456789abcdef0123456789abcdef01",
    ];
    for spelling in cases {
        assert!(matches!(Account::parse(spelling), Err(RewardError::InvalidAccount)));
    }
}

#[test]
fn hex_spelling_round_trips() {
    let spelling = "0xABCDEF0123456789abcdef0123456789ABCDEF01";
    let account = Account::parse(spelling).unwrap();
    let rendered = account.to_hex_string();
    assert_eq!(rendered, "0xabcdef0123456789abcdef0123456789abcdef01");
    let again = Account::parse(&rendered).unwrap();
    assert!(account == again);
}

#[test]
fn canonical_bytes_are_fixed_width() {
    let account = Account::parse("0x0000000000000000000000000000000000000001").unwrap();
    assert_eq!(account.as_bytes().len(), ACCOUNT_BYTES);
    assert_eq!(account.byte_at(ACCOUNT_BYTES - 1), 1);
    assert_eq!(account.byte_at(0), 0);
}

#[test]
fn byte_order_decides_comparison() {
    let low = Account::parse("0x1111111111111111111111111111111111111111").unwrap();
    let high = Account::parse("0xaaaaaaaaaaaaaaaaaaaaaaaaaaaaaaaaaaaaaaaa").unwrap();
    assert!(low.lt(&high));
    assert!(!high.lt(&low));
    assert!(!low.lt(&low));
}

#[test]
fn zero_word_is_not_positive() {
    let zeros = vec![0u8; 32];
    assert!(!word_is_positive(&zeros));
    assert!(!word_is_positive(&[]));
}

#[test]
fn nonzero_word_is_positive() {
    let mut word = vec![0u8; 32];
    word[31] = 3;
    assert!(word_is_positive(&word));
    let mut high = vec![0u8; 32];
    high[0] = 1;
    assert!(word_is_positive(&high));
}

#[test]
fn response_word_encodes_big_endian() {
    let word = abi_encode_u64(0x0102);
    assert_eq!(word.len(), 32);
    assert_eq!(word[31], 2);
    assert_eq!(word[30], 1);
    assert!(word[..30].iter().all(|b| *b == 0));
    assert!(word_is_positive(&word));

    let zero = abi_encode_u64(0);
    assert_eq!(zero.len(), 32);
    assert!(!word_is_positive(&zero));

    let max = abi_encode_u64(u64::MAX);
    assert!(max[24..].iter().all(|b| *b == 0xff));
    assert!(max[..24].iter().all(|b| *b == 0));
}
