use nft_raffle::error::ContractError;
use nft_raffle::royalty::{nft_payout, Payout, Royalty, RoyaltyMap, PERCENTAGE_BASIS};

fn amount_of(p: &Payout, account: &str) -> Option<u128> {
    p.payout.iter().find(|(a, _)| a == account).map(|(_, v)| *v)
}

fn total_of(p: &Payout) -> u128 {
    p.payout.iter().map(|(_, v)| *v).sum()
}

fn alice_bob() -> RoyaltyMap {
    vec![("alice".to_string(), 5_000), ("bob".to_string(), 5_000)]
}

#[test]
fn royalty_accepts_valid_config() {
    let r = Royalty::new(alice_bob(), 1_000).unwrap();
    assert_eq!(r.get_royalties(), &alice_bob());
    assert_eq!(r.royalty_rate(), 1_000);
    let whole = vec![("a".to_string(), PERCENTAGE_BASIS)];
    assert!(Royalty::new(whole.clone(), PERCENTAGE_BASIS).is_ok());
    assert!(Royalty::new(whole, 0).is_ok());
}

#[test]
fn royalty_rejects_eleven_accounts() {
    let mut m: RoyaltyMap = Vec::new();
    for i in 0..11u16 {
        m.push((format!("acc{}", i), if i == 0 { 0 } else { 1_000 }));
    }
    assert_eq!(Royalty::new(m, 1_000).err(), Some(ContractError::InvalidRoyaltyConfig));
    let mut ten: RoyaltyMap = Vec::new();
    for i in 0..10u16 {
        ten.push((format!("acc{}", i), 1_000));
    }
    assert!(Royalty::new(ten, 1_000).is_ok());
}

#[test]
fn royalty_rejects_short_sum() {
    let m = vec![("alice".to_string(), 5_000), ("bob".to_string(), 4_999)];
    assert_eq!(Royalty::new(m, 1_000).err(), Some(ContractError::InvalidRoyaltyConfig));
    let over = vec![("alice".to_string(), 60_000), ("bob".to_string(), 60_000)];
    assert_eq!(Royalty::new(over, 1_000).err(), Some(ContractError::InvalidRoyaltyConfig));
    assert_eq!(Royalty::new(Vec::new(), 0).err(), Some(ContractError::InvalidRoyaltyConfig));
}

#[test]
fn royalty_rejects_rate_above_basis() {
    assert_eq!(
        Royalty::new(alice_bob(), PERCENTAGE_BASIS + 1).err(),
        Some(ContractError::InvalidRoyaltyConfig)
    );
}

#[test]
fn payout_to_outside_beneficiary() {
    let p = Payout::calculate_payout(100_000_000, &"carol".to_string(), &alice_bob(), 1_000);
    assert_eq!(
        p.payout,
        vec![
            ("alice".to_string(), 5_000_000),
            ("bob".to_string(), 5_000_000),
            ("carol".to_string(), 90_000_000),
        ]
    );
    assert_eq!(total_of(&p), 100_000_000);
}

#[test]
fn payout_to_royalty_beneficiary() {
    let p = Payout::calculate_payout(100_000_000, &"alice".to_string(), &alice_bob(), 1_000);
    assert_eq!(p.payout.len(), 2);
    assert_eq!(amount_of(&p, "alice"), Some(95_000_000));
    assert_eq!(amount_of(&p, "bob"), Some(5_000_000));
    assert_eq!(total_of(&p), 100_000_000);
}

#[test]
fn payout_without_royalty_part() {
    let p = Payout::calculate_payout(777, &"carol".to_string(), &Vec::new(), 0);
    assert_eq!(p.payout, vec![("carol".to_string(), 777)]);
    let p = Payout::calculate_payout(100, &"carol".to_string(), &Vec::new(), 1_000);
    assert_eq!(p.payout, vec![("carol".to_string(), 100)]);
    let p = Payout::calculate_payout(777, &"carol".to_string(), &alice_bob(), 0);
    assert_eq!(amount_of(&p, "carol"), Some(777));
    assert_eq!(amount_of(&p, "alice"), Some(0));
    assert_eq!(amount_of(&p, "bob"), Some(0));
    assert_eq!(total_of(&p), 777);
}

#[test]
fn payout_conserves_total() {
    let configs: Vec<(RoyaltyMap, u16)> = vec![
        (alice_bob(), 1_000),
        (vec![("x".to_string(), 2_500), ("y".to_string(), 7_500)], 2_000),
        (vec![("x".to_string(), 3_333), ("y".to_string(), 6_667)], 777),
        (
            vec![("x".to_string(), 1), ("y".to_string(), 2), ("z".to_string(), 9_997)],
            PERCENTAGE_BASIS,
        ),
        (vec![("x".to_string(), PERCENTAGE_BASIS)], PERCENTAGE_BASIS),
    ];
    for (m, rate) in configs {
        for total in [0u128, 1, 15, 9_999, 12_345, 1_000_001, 999_999_999_999, u128::MAX / 10_000] {
            for who in ["x", "y", "alice", "z", "w"] {
                let p = Payout::calculate_payout(total, &who.to_string(), &m, rate);
                assert_eq!(total_of(&p), total);
            }
        }
    }
}

#[test]
fn payout_folds_rounding_dust() {
    // a pool of 1 split in halves rounds both halves down to 0; the
    // beneficiary keeps the remainder
    let p = Payout::calculate_payout(10, &"carol".to_string(), &alice_bob(), 1_000);
    assert_eq!(amount_of(&p, "alice"), Some(0));
    assert_eq!(amount_of(&p, "bob"), Some(0));
    assert_eq!(amount_of(&p, "carol"), Some(10));
    let p = Payout::calculate_payout(15, &"carol".to_string(), &alice_bob(), 1_000);
    assert_eq!(
        p.payout,
        vec![("alice".to_string(), 0), ("bob".to_string(), 0), ("carol".to_string(), 15)]
    );
    // a pool of 3 gives bob 1 and alice, the beneficiary, the rest
    let p = Payout::calculate_payout(30, &"alice".to_string(), &alice_bob(), 1_000);
    assert_eq!(amount_of(&p, "bob"), Some(1));
    assert_eq!(amount_of(&p, "alice"), Some(29));
}

#[test]
fn payout_of_full_rate() {
    let m = vec![("x".to_string(), 3_333), ("y".to_string(), 6_667)];
    let p = Payout::calculate_payout(10_000, &"s".to_string(), &m, PERCENTAGE_BASIS);
    assert_eq!(
        p.payout,
        vec![("x".to_string(), 3_333), ("y".to_string(), 6_667), ("s".to_string(), 0)]
    );
}

#[test]
fn nft_payout_applies_cap() {
    let r = Some(Royalty::new(alice_bob(), 1_000).unwrap());
    let owner = "carol".to_string();
    assert_eq!(
        nft_payout(100_000_000, &owner, &r, Some(2)).err(),
        Some(ContractError::PayoutTooLarge)
    );
    let p = nft_payout(100_000_000, &owner, &r, Some(3)).unwrap();
    assert_eq!(amount_of(&p, "carol"), Some(90_000_000));
    let p = nft_payout(100_000_000, &owner, &r, None).unwrap();
    assert_eq!(p.payout.len(), 3);
    let p = nft_payout(100_000_000, &"alice".to_string(), &r, Some(2)).unwrap();
    assert_eq!(amount_of(&p, "alice"), Some(95_000_000));
}

#[test]
fn nft_payout_without_royalty_pays_owner() {
    let p = nft_payout(100, &"carol".to_string(), &None, None).unwrap();
    assert_eq!(p.payout, vec![("carol".to_string(), 100)]);
    assert_eq!(
        nft_payout(100, &"carol".to_string(), &None, Some(0)).err(),
        Some(ContractError::PayoutTooLarge)
    );
}
