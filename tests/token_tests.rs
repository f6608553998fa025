use clacheless::peer_token::assemble_token;
use clacheless::peer_token::is_token_valid;
use clacheless::peer_token::token_message;
use clacheless::peer_token::token_time_bytes;
use clacheless::peer_token::HEADER_NAME;

const MAC: [u8; 4] = [9, 8, 7, 6];

#[test]
fn token_layout_is_time_then_mac() {
    assert_eq!(HEADER_NAME, "internal-auth");
    assert_eq!(token_message(0x0102_0304_0506_0708), vec![1, 2, 3, 4, 5, 6, 7, 8]);
    let t = assemble_token(0x0102_0304_0506_0708, &MAC);
    assert_eq!(t, vec![1, 2, 3, 4, 5, 6, 7, 8, 9, 8, 7, 6]);
    assert_eq!(token_time_bytes(&t), Some(vec![1, 2, 3, 4, 5, 6, 7, 8]));
    assert_eq!(token_time_bytes(&t[..7]), None);
}

#[test]
fn fresh_token_is_accepted() {
    let minted = 5_000_000u64;
    let t = assemble_token(minted, &MAC);
    assert!(is_token_valid(Some(&t), &MAC, minted));
    assert!(is_token_valid(Some(&t), &MAC, minted + 999_999));
}

#[test]
fn absent_malformed_or_old_token_is_refused() {
    let minted = 5_000_000u64;
    let t = assemble_token(minted, &MAC);
    assert!(!is_token_valid(None, &MAC, minted));
    assert!(!is_token_valid(Some(&t[..5]), &MAC, minted));
    assert!(!is_token_valid(Some(&t[..10]), &MAC, minted));
    assert!(!is_token_valid(Some(&t), &[9, 8, 7, 5], minted));
    let mut longer = t.clone();
    longer.push(0);
    assert!(!is_token_valid(Some(&longer), &MAC, minted));
    assert!(!is_token_valid(Some(&t), &MAC, minted + 1_000_000));
}
