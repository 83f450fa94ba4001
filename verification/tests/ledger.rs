use piwallet_backend::Identity;
use piwallet_backend::Ledger;
use piwallet_backend::WalletResult;
use piwallet_backend::INITIAL_SUPPLY;

fn id(byte: u8) -> Identity {
    Identity::from_bytes(vec![byte])
}

fn le8(n: u64) -> Vec<u8> {
    let mut out = Vec::new();
    for k in 0..8 {
        out.push(((n >> (8 * k)) & 0xff) as u8);
    }
    out
}

fn is_ok(r: &WalletResult) -> bool {
    matches!(r, WalletResult::Confirmation(_))
}

#[test]
fn initialize_credits_owner() {
    let owner = id(1);
    let ledger = Ledger::initialize(&owner);
    assert_eq!(ledger.get_total_supply(), 1_000_000);
    assert_eq!(ledger.get_balance(&owner), 1_000_000);
    assert_eq!(INITIAL_SUPPLY, 1_000_000);
    assert!(ledger.address_exists(&owner));
}

#[test]
fn mint_by_owner_credits_recipient() {
    let owner = id(1);
    let x = id(2);
    let mut ledger = Ledger::initialize(&owner);
    let r = ledger.mint(&owner, &x, 500);
    assert!(is_ok(&r));
    assert_eq!(r.message().as_str(), "Successfully minted 500 tokens to 02");
    assert_eq!(ledger.get_balance(&x), 500);
    assert_eq!(ledger.get_total_supply(), 1_000_500);
}

#[test]
fn transfer_moves_tokens_and_keeps_supply() {
    let owner = id(1);
    let x = id(2);
    let y = id(3);
    let mut ledger = Ledger::initialize(&owner);
    assert!(is_ok(&ledger.mint(&owner, &x, 500)));
    let r = ledger.send_tokens(&x, &y, 200);
    assert!(is_ok(&r));
    assert_eq!(r.message().as_str(), "Successfully sent 200 tokens to 03");
    assert_eq!(ledger.get_balance(&x), 300);
    assert_eq!(ledger.get_balance(&y), 200);
    assert_eq!(ledger.get_total_supply(), 1_000_500);
}

#[test]
fn mint_by_non_owner_is_unauthorized() {
    let owner = id(1);
    let x = id(2);
    let y = id(3);
    let mut ledger = Ledger::initialize(&owner);
    assert!(is_ok(&ledger.mint(&owner, &x, 500)));
    assert!(is_ok(&ledger.send_tokens(&x, &y, 200)));
    let r = ledger.mint(&y, &y, 100);
    match r {
        WalletResult::Rejection(m) => assert_eq!(m.as_str(), "Only owner can mint tokens"),
        WalletResult::Confirmation(_) => panic!("mint by non-owner must fail"),
    }
    assert_eq!(ledger.get_balance(&x), 300);
    assert_eq!(ledger.get_balance(&y), 200);
    assert_eq!(ledger.get_balance(&owner), 1_000_000);
    assert_eq!(ledger.get_total_supply(), 1_000_500);
}

#[test]
fn transfer_beyond_balance_is_insufficient() {
    let owner = id(1);
    let x = id(2);
    let y = id(3);
    let mut ledger = Ledger::initialize(&owner);
    assert!(is_ok(&ledger.mint(&owner, &x, 500)));
    assert!(is_ok(&ledger.send_tokens(&x, &y, 200)));
    let r = ledger.send_tokens(&x, &y, 10_000);
    match r {
        WalletResult::Rejection(m) => assert_eq!(m.as_str(), "Insufficient balance"),
        WalletResult::Confirmation(_) => panic!("overdraft must fail"),
    }
    assert_eq!(ledger.get_balance(&x), 300);
    assert_eq!(ledger.get_balance(&y), 200);
    assert_eq!(ledger.get_total_supply(), 1_000_500);
}

#[test]
fn snapshot_round_trip_restores_state() {
    let owner = id(1);
    let x = id(2);
    let y = id(3);
    let mut ledger = Ledger::initialize(&owner);
    assert!(is_ok(&ledger.mint(&owner, &x, 500)));
    assert!(is_ok(&ledger.send_tokens(&x, &y, 200)));
    let bytes = ledger.serialize();
    let restored = Ledger::deserialize(&bytes).expect("a saved snapshot must restore");
    assert_eq!(restored.get_balance(&x), 300);
    assert_eq!(restored.get_balance(&y), 200);
    assert_eq!(restored.get_balance(&owner), 1_000_000);
    assert_eq!(restored.get_total_supply(), 1_000_500);
    assert!(restored.owner.same(&owner));
}

#[test]
fn conservation_across_operation_sequence() {
    let owner = id(1);
    let x = id(2);
    let y = id(3);
    let mut ledger = Ledger::initialize(&owner);
    let mut minted: u64 = 0;
    for (amount, target) in [(500u64, 2u8), (250, 3), (1, 1)] {
        if is_ok(&ledger.mint(&owner, &id(target), amount)) {
            minted += amount;
        }
    }
    let _ = ledger.mint(&x, &x, 999);
    let _ = ledger.send_tokens(&x, &y, 100);
    let _ = ledger.send_tokens(&y, &owner, 40);
    let _ = ledger.send_tokens(&y, &y, 10);
    assert_eq!(ledger.get_total_supply(), INITIAL_SUPPLY + minted);
}

#[test]
fn self_transfer_is_a_noop_on_balances() {
    let owner = id(1);
    let x = id(2);
    let mut ledger = Ledger::initialize(&owner);
    assert!(is_ok(&ledger.mint(&owner, &x, 500)));
    let r = ledger.send_tokens(&x, &x, 400);
    assert!(is_ok(&r));
    assert_eq!(ledger.get_balance(&x), 500);
    assert_eq!(ledger.get_total_supply(), 1_000_500);
}

#[test]
fn transfer_of_zero_creates_recipient_entry() {
    let owner = id(1);
    let newcomer = id(9);
    let mut ledger = Ledger::initialize(&owner);
    assert!(!ledger.address_exists(&newcomer));
    let r = ledger.send_tokens(&owner, &newcomer, 0);
    assert!(is_ok(&r));
    assert!(ledger.address_exists(&newcomer));
    assert_eq!(ledger.get_balance(&newcomer), 0);
    assert_eq!(ledger.get_balance(&owner), 1_000_000);
}

#[test]
fn untouched_address_reads_as_zero_and_absent() {
    let owner = id(1);
    let stranger = id(7);
    let ledger = Ledger::initialize(&owner);
    assert_eq!(ledger.get_balance(&stranger), 0);
    assert!(!ledger.address_exists(&stranger));
}

#[test]
fn mint_overflowing_total_supply_is_rejected() {
    let owner = id(1);
    let x = id(2);
    let mut ledger = Ledger::initialize(&owner);
    let r = ledger.mint(&owner, &x, u64::MAX);
    match r {
        WalletResult::Rejection(m) => {
            assert_eq!(m.as_str(), "Amount would overflow the total supply")
        }
        WalletResult::Confirmation(_) => panic!("overflowing mint must fail"),
    }
    assert_eq!(ledger.get_total_supply(), 1_000_000);
    assert_eq!(ledger.get_balance(&x), 0);
}

#[test]
fn serialize_produces_the_documented_layout() {
    let owner = id(1);
    let ledger = Ledger::initialize(&owner);
    let mut expected = Vec::new();
    expected.extend_from_slice(&le8(1)); // owner length
    expected.push(1); // owner bytes
    expected.extend_from_slice(&le8(1)); // entry count
    expected.extend_from_slice(&le8(1)); // key length
    expected.push(1); // key bytes
    expected.extend_from_slice(&le8(1_000_000)); // balance
    assert_eq!(ledger.serialize(), expected);
}

#[test]
fn deserialize_rejects_truncated_bytes() {
    let owner = id(1);
    let ledger = Ledger::initialize(&owner);
    let bytes = ledger.serialize();
    assert!(Ledger::deserialize(&Vec::new()).is_none());
    for cut in [1, 8, 9, 16, bytes.len() - 1] {
        let truncated: Vec<u8> = bytes[..cut].to_vec();
        assert!(Ledger::deserialize(&truncated).is_none());
    }
    let mut padded = bytes.clone();
    padded.push(0);
    assert!(Ledger::deserialize(&padded).is_none());
}

#[test]
fn deserialize_rejects_duplicate_keys() {
    let mut bytes = Vec::new();
    bytes.extend_from_slice(&le8(1)); // owner length
    bytes.push(1);
    bytes.extend_from_slice(&le8(2)); // two entries, same key
    for _ in 0..2 {
        bytes.extend_from_slice(&le8(1));
        bytes.push(2);
        bytes.extend_from_slice(&le8(5));
    }
    assert!(Ledger::deserialize(&bytes).is_none());
}

#[test]
fn deserialize_rejects_unrepresentable_total() {
    let mut bytes = Vec::new();
    bytes.extend_from_slice(&le8(1)); // owner length
    bytes.push(1);
    bytes.extend_from_slice(&le8(2)); // two entries
    bytes.extend_from_slice(&le8(1));
    bytes.push(2);
    bytes.extend_from_slice(&le8(u64::MAX));
    bytes.extend_from_slice(&le8(1));
    bytes.push(3);
    bytes.extend_from_slice(&le8(1));
    assert!(Ledger::deserialize(&bytes).is_none());
}

#[test]
fn deserialize_accepts_a_hand_built_snapshot() {
    let mut bytes = Vec::new();
    bytes.extend_from_slice(&le8(2)); // owner length
    bytes.extend_from_slice(&[10, 20]);
    bytes.extend_from_slice(&le8(2)); // two entries
    bytes.extend_from_slice(&le8(2));
    bytes.extend_from_slice(&[10, 20]);
    bytes.extend_from_slice(&le8(700));
    bytes.extend_from_slice(&le8(1));
    bytes.push(9);
    bytes.extend_from_slice(&le8(42));
    let ledger = Ledger::deserialize(&bytes).expect("well-formed snapshot must decode");
    let owner = Identity::from_bytes(vec![10, 20]);
    let other = Identity::from_bytes(vec![9]);
    assert!(ledger.owner.same(&owner));
    assert_eq!(ledger.get_balance(&owner), 700);
    assert_eq!(ledger.get_balance(&other), 42);
    assert_eq!(ledger.get_total_supply(), 742);
}

#[test]
fn identity_equality_is_by_bytes() {
    let a = Identity::from_bytes(vec![1, 2, 3]);
    let b = Identity::from_bytes(vec![1, 2, 3]);
    let c = Identity::from_bytes(vec![1, 2]);
    let d = Identity::from_bytes(vec![1, 2, 4]);
    assert!(a.same(&b));
    assert!(!a.same(&c));
    assert!(!a.same(&d));
    assert!(a.duplicate().same(&a));
}

#[test]
fn empty_identity_is_a_valid_account() {
    let owner = Identity::from_bytes(Vec::new());
    let x = id(2);
    let mut ledger = Ledger::initialize(&owner);
    assert_eq!(ledger.get_balance(&owner), 1_000_000);
    let r = ledger.mint(&owner, &x, 7);
    assert!(is_ok(&r));
    let bytes = ledger.serialize();
    let restored = Ledger::deserialize(&bytes).expect("snapshot must restore");
    assert_eq!(restored.get_balance(&owner), 1_000_000);
    assert_eq!(restored.get_balance(&x), 7);
}

#[test]
fn wallet_result_reports_success_and_message() {
    let owner = id(1);
    let mut ledger = Ledger::initialize(&owner);
    let ok = ledger.mint(&owner, &id(0xab), 3);
    assert!(ok.is_ok());
    assert_eq!(ok.message().as_str(), "Successfully minted 3 tokens to ab");
    let err = ledger.mint(&id(2), &id(2), 3);
    assert!(!err.is_ok());
    assert_eq!(err.message().as_str(), "Only owner can mint tokens");
}
