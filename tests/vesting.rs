use phoenix_dex::error::VestingError;
use phoenix_dex::vesting::{MinterInfo, Vesting};

const ADMIN: u64 = 1;
const TOKEN: u64 = 2;
const MINTER: u64 = 3;
const OTHER: u64 = 4;

fn with_minter(capacity: u128) -> Vesting {
    let minter = MinterInfo { address: MINTER, mint_capacity: capacity };
    Vesting::initialize(ADMIN, TOKEN, &vec![100, 200], 1_000, Some(minter), 5).unwrap().0
}

#[test]
fn initialize_checks() {
    assert!(matches!(
        Vesting::initialize(ADMIN, TOKEN, &vec![], 1_000, None, 5),
        Err(VestingError::MissingBalance)
    ));
    assert!(matches!(
        Vesting::initialize(ADMIN, TOKEN, &vec![600, 500], 1_000, None, 5),
        Err(VestingError::NoEnoughtTokensToStart)
    ));
    assert!(matches!(
        Vesting::initialize(ADMIN, TOKEN, &vec![u128::MAX, 1], i128::MAX, None, 5),
        Err(VestingError::NoEnoughtTokensToStart)
    ));
    let minter = MinterInfo { address: MINTER, mint_capacity: 299 };
    assert!(matches!(
        Vesting::initialize(ADMIN, TOKEN, &vec![100, 200], 1_000, Some(minter), 5),
        Err(VestingError::TotalVestedOverCapacity)
    ));
    let (v, total) = Vesting::initialize(ADMIN, TOKEN, &vec![100, 200], 300, None, 5).unwrap();
    assert_eq!(total, 300);
    assert_eq!((v.admin(), v.token(), v.max_vesting_complexity()), (ADMIN, TOKEN, 5));
    assert_eq!(v.query_minter(), Err(VestingError::MinterNotFound));
}

#[test]
fn mint_uses_capacity() {
    let mut v = with_minter(500);
    assert_eq!(v.mint(MINTER, 0), Err(VestingError::InvalidMintAmount));
    assert_eq!(v.mint(OTHER, 10), Err(VestingError::NotAuthorized));
    assert_eq!(v.mint(MINTER, 501), Err(VestingError::NotEnoughCapacity));
    assert_eq!(v.mint(MINTER, 200), Ok(()));
    assert_eq!(v.query_minter(), Ok(MinterInfo { address: MINTER, mint_capacity: 300 }));
    let (mut none, _) = Vesting::initialize(ADMIN, TOKEN, &vec![1], 1, None, 5).unwrap();
    assert_eq!(none.mint(MINTER, 1), Err(VestingError::MinterNotFound));
}

#[test]
fn minter_updates() {
    let mut v = with_minter(500);
    assert_eq!(v.update_minter(ADMIN, OTHER), Err(VestingError::NotAuthorized));
    assert_eq!(v.update_minter(MINTER, OTHER), Ok(()));
    assert_eq!(v.query_minter(), Ok(MinterInfo { address: OTHER, mint_capacity: 500 }));
    assert_eq!(v.update_minter_capacity(OTHER, 7), Err(VestingError::NotAuthorized));
    assert_eq!(v.update_minter_capacity(ADMIN, 7), Ok(()));
    assert_eq!(v.query_minter(), Ok(MinterInfo { address: OTHER, mint_capacity: 7 }));

    let (mut none, _) = Vesting::initialize(ADMIN, TOKEN, &vec![1], 1, None, 5).unwrap();
    assert_eq!(none.update_minter_capacity(ADMIN, 7), Err(VestingError::MinterNotFound));
    assert_eq!(none.update_minter(OTHER, MINTER), Err(VestingError::NotAuthorized));
    assert_eq!(none.update_minter(ADMIN, MINTER), Ok(()));
    assert_eq!(none.query_minter(), Ok(MinterInfo { address: MINTER, mint_capacity: 0 }));
}

#[test]
fn claim_and_amount_checks() {
    assert_eq!(Vesting::query_available_to_claim(100, 40), Ok(60));
    assert_eq!(Vesting::query_available_to_claim(10, 40), Err(VestingError::NotEnoughBalance));
    assert_eq!(Vesting::claim(100, 40), Ok(60));
    assert_eq!(Vesting::claim(40, 40), Err(VestingError::NeverFullyVested));
    assert_eq!(Vesting::claim(30, 40), Err(VestingError::NotEnoughBalance));
    assert_eq!(Vesting::transfer_token(5), Ok(5));
    assert_eq!(Vesting::transfer_token(0), Err(VestingError::InvalidTransferAmount));
    assert_eq!(Vesting::burn(5), Ok(5));
    assert_eq!(Vesting::burn(0), Err(VestingError::InvalidBurnAmount));
    assert_eq!(Vesting::burn(u128::MAX), Err(VestingError::InvalidBurnAmount));
}
