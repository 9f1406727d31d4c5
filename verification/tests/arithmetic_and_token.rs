//! The pool arithmetic, the canonical order of addresses, and the faucet token.

use ootleswap::address::{canonical_pair, text_le_exec, ResourceId};
use ootleswap::math::{compute_swap_output, isqrt_u128, mul_div};
use ootleswap::soon_token::{FaucetError, SoonToken, FAUCET_AMOUNT_MICRO, INITIAL_SUPPLY_MICRO};
use tari_template_lib_types::{ObjectKey, ResourceAddress};

#[test]
fn isqrt_exact_values() {
    assert_eq!(isqrt_u128(0), 0);
    assert_eq!(isqrt_u128(1), 1);
    assert_eq!(isqrt_u128(2), 1);
    assert_eq!(isqrt_u128(3), 1);
    assert_eq!(isqrt_u128(4), 2);
    assert_eq!(isqrt_u128(15), 3);
    assert_eq!(isqrt_u128(16), 4);
    assert_eq!(isqrt_u128(10_000_000_000_000_000), 100_000_000);
    assert_eq!(isqrt_u128(u128::MAX - 1), u64::MAX as u128);
}

#[test]
fn swap_output_formula() {
    assert_eq!(compute_swap_output(100_000_000, 100_000_000, 100_000_000), Some(49_924_887));
    // 10 * 997 * 1000 / (1000 * 1000 + 10 * 997) = 9
    assert_eq!(compute_swap_output(10, 1000, 1000), Some(9));
    assert_eq!(compute_swap_output(0, 0, 5), None);
    assert_eq!(compute_swap_output(u128::MAX, 1, 1), None);
    assert_eq!(compute_swap_output(1, u128::MAX, 1), None);
}

#[test]
fn mul_div_values() {
    assert_eq!(mul_div(50_000_000, 100_000_000, 99_999_000), Some(50_000_500));
    assert_eq!(mul_div(7, 3, 2), Some(10));
    assert_eq!(mul_div(7, 3, 0), None);
    assert_eq!(mul_div(u128::MAX, 2, 1), None);
}

fn rendered(r: &ResourceId) -> String {
    ResourceAddress::new(ObjectKey::from_array(r.bytes)).to_string()
}

#[test]
fn canonical_pair_follows_the_rendered_addresses() {
    let mut x = ResourceId { bytes: [0u8; 32] };
    let mut y = ResourceId { bytes: [0u8; 32] };
    x.bytes[0] = 0x0a;
    y.bytes[0] = 0x09;
    y.bytes[1] = 0xff;
    assert!(rendered(&y) < rendered(&x));
    let (a, b) = canonical_pair(x, y);
    assert_eq!(a.bytes, y.bytes);
    assert_eq!(b.bytes, x.bytes);
    let (a, b) = canonical_pair(y, x);
    assert_eq!(a.bytes, y.bytes);
    assert_eq!(b.bytes, x.bytes);
    // Equal addresses keep their order.
    let (a, b) = canonical_pair(x, x);
    assert_eq!((a.bytes, b.bytes), (x.bytes, x.bytes));
}

#[test]
fn canonical_pair_of_the_native_token_and_another() {
    let tari = ResourceId { bytes: [1u8; 32] };
    let soon = ResourceId { bytes: [0x7c; 32] };
    assert_eq!(
        rendered(&tari),
        "resource_0101010101010101010101010101010101010101010101010101010101010101"
    );
    let (a, b) = canonical_pair(soon, tari);
    assert_eq!((a.bytes, b.bytes), (tari.bytes, soon.bytes));
}

#[test]
fn text_order_is_lexicographic() {
    assert!(text_le_exec("abc", "abd"));
    assert!(!text_le_exec("abd", "abc"));
    assert!(text_le_exec("ab", "abc"));
    assert!(!text_le_exec("abc", "ab"));
    assert!(text_le_exec("abc", "abc"));
    assert!(text_le_exec("", ""));
    assert!(text_le_exec("resource_09", "resource_0a"));
}

#[test]
fn faucet_drips_until_empty() {
    let mut token = SoonToken::new(ResourceId { bytes: [3u8; 32] });
    assert_eq!(token.balance(), INITIAL_SUPPLY_MICRO);
    assert_eq!(token.faucet(), Ok(FAUCET_AMOUNT_MICRO));
    assert_eq!(token.faucet_count(), 1);
    assert_eq!(token.balance(), INITIAL_SUPPLY_MICRO - FAUCET_AMOUNT_MICRO);
    for _ in 1..10_000 {
        assert_eq!(token.faucet(), Ok(FAUCET_AMOUNT_MICRO));
    }
    assert_eq!(token.faucet_count(), 10_000);
    assert_eq!(token.balance(), 0);
    assert_eq!(token.faucet(), Err(FaucetError::Empty));
    assert_eq!(token.faucet_count(), 10_000);
    assert_eq!(token.resource_address().bytes, [3u8; 32]);
}

#[test]
fn faucet_refuses_a_partial_drip() {
    let mut token = SoonToken {
        resource: ResourceId { bytes: [3u8; 32] },
        balance: FAUCET_AMOUNT_MICRO - 1,
        faucet_count: 0,
    };
    assert_eq!(token.faucet(), Err(FaucetError::InsufficientBalance));
    assert_eq!(token.balance(), FAUCET_AMOUNT_MICRO - 1);
    assert_eq!(token.faucet_count(), 0);
}

#[test]
fn faucet_refuses_when_the_counter_is_full() {
    let mut token = SoonToken {
        resource: ResourceId { bytes: [3u8; 32] },
        balance: FAUCET_AMOUNT_MICRO,
        faucet_count: u64::MAX,
    };
    assert_eq!(token.faucet(), Err(FaucetError::CountOverflow));
    assert_eq!(token.balance(), FAUCET_AMOUNT_MICRO);
}
