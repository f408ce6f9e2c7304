use maze_mining::contract::batch_mint_fits;
use maze_mining::address::Address;
use maze_mining::context::Msg;
use maze_mining::contract::{
    batchMint, burn, getChainId, getHarvestRatioLimit, getOwner, init, locked, mint, modifyOwner,
    setHarvestRatioLimit, unlocked, _burn, _mint,
};
use maze_mining::persist::{
    derive_pair_key, get_pair_by_index, get_unclaimed, pairs_count, save_pair, set_pairs_count,
    set_unclaimed, Contract, ContractError,
};
use maze_mining::u256::U256;

fn addr(b: u8) -> Address {
    Address::new(vec![b; 20])
}

fn msg_from(b: u8) -> Msg {
    Msg { sender: addr(b), amount: U256::zero() }
}

fn n(x: u64) -> U256 {
    U256::from_u64(x)
}

fn owned() -> Contract {
    let mut c = Contract::new();
    init(&mut c, &msg_from(7), 42);
    c
}

#[test]
fn fresh_storage_reads_defaults() {
    let c = Contract::new();
    assert_eq!(getOwner(&c).as_slice(), &[0u8; 20]);
    assert_eq!(getChainId(&c), 0);
    assert!(getHarvestRatioLimit(&c, addr(1)).is_zero());
    assert_eq!(pairs_count(&c), 0);
}

#[test]
fn init_sets_owner_and_chain() {
    let c = owned();
    assert_eq!(getOwner(&c).as_slice(), &[7u8; 20]);
    assert_eq!(getChainId(&c), 42);
}

#[test]
fn only_owner_sets_ratio() {
    let mut c = owned();
    assert_eq!(setHarvestRatioLimit(&mut c, &msg_from(8), addr(1), n(5)), Err(ContractError::NotOwner));
    assert!(getHarvestRatioLimit(&c, addr(1)).is_zero());
    assert_eq!(setHarvestRatioLimit(&mut c, &msg_from(7), addr(1), n(5)), Ok(()));
    assert_eq!(getHarvestRatioLimit(&c, addr(1)).u64(), 5);
    assert!(getHarvestRatioLimit(&c, addr(2)).is_zero());
}

#[test]
fn mint_burn_and_saturation() {
    let mut c = owned();
    assert_eq!(mint(&mut c, &msg_from(7), addr(1), 3, addr(2), n(100)), Ok(()));
    assert_eq!(mint(&mut c, &msg_from(7), addr(1), 3, addr(2), n(50)), Ok(()));
    let key = derive_pair_key(&addr(1), 3, &addr(2));
    assert_eq!(get_unclaimed(&c, &key).u64(), 150);
    assert_eq!(mint(&mut c, &msg_from(9), addr(1), 3, addr(2), n(50)), Err(ContractError::NotOwner));
    assert_eq!(burn(&mut c, &msg_from(9), addr(1), 3, addr(2), n(50), 0), Err(ContractError::NotOwner));
    assert_eq!(get_unclaimed(&c, &key).u64(), 150);
    assert_eq!(burn(&mut c, &msg_from(7), addr(1), 3, addr(2), n(40), 0), Ok(()));
    assert_eq!(get_unclaimed(&c, &key).u64(), 110);
    assert_eq!(burn(&mut c, &msg_from(7), addr(1), 3, addr(2), n(1000), 0), Ok(()));
    assert!(get_unclaimed(&c, &key).is_zero());
    // other pairs are untouched
    let other = derive_pair_key(&addr(1), 4, &addr(2));
    assert!(get_unclaimed(&c, &other).is_zero());
}

#[test]
fn mint_then_burn_restores() {
    let mut c = owned();
    let key = derive_pair_key(&addr(3), 0, &addr(4));
    set_unclaimed(&mut c, &key, n(77));
    _mint(&mut c, &key, &n(23));
    assert_eq!(get_unclaimed(&c, &key).u64(), 100);
    _burn(&mut c, &key, &n(23));
    assert_eq!(get_unclaimed(&c, &key).u64(), 77);
}

#[test]
fn locked_and_unlocked_split_the_reward() {
    let mut c = owned();
    let ratio = U256::from_str("300000000000000000000000000").unwrap(); // 0.3
    setHarvestRatioLimit(&mut c, &msg_from(7), addr(1), ratio).unwrap();
    mint(&mut c, &msg_from(7), addr(1), 0, addr(2), n(1000)).unwrap();
    let un = unlocked(&c, addr(1), 0, addr(2));
    let lo = locked(&c, addr(1), 0, addr(2));
    assert_eq!(un.u64(), 300);
    assert_eq!(lo.u64(), 700);
    assert_eq!(un.add(&lo).u64(), 1000);
}

#[test]
fn modify_owner_keeps_the_sender() {
    let mut c = owned();
    assert_eq!(modifyOwner(&mut c, &msg_from(7), addr(9)), Ok(()));
    assert_eq!(getOwner(&c).as_slice(), &[7u8; 20]);
    assert_eq!(modifyOwner(&mut c, &msg_from(9), addr(9)), Err(ContractError::NotOwner));
    assert_eq!(getOwner(&c).as_slice(), &[7u8; 20]);
}

#[test]
fn pair_key_layout() {
    let k = derive_pair_key(&Address::new(vec![1, 2]), 0x0102030405060708, &Address::new(vec![9]));
    assert_eq!(k, vec![1, 2, 1, 2, 3, 4, 5, 6, 7, 8, 9]);
}

#[test]
fn save_pair_registers_once() {
    let mut c = owned();
    let i = save_pair(&mut c, &addr(1), 2, &addr(3));
    assert_eq!(i, 1);
    assert_eq!(get_pair_by_index(&c, 1), derive_pair_key(&addr(1), 2, &addr(3)));
    assert_eq!(save_pair(&mut c, &addr(1), 2, &addr(3)), 1);
    // the count is never advanced, so a new pair takes index 1 again
    assert_eq!(save_pair(&mut c, &addr(4), 2, &addr(3)), 1);
    assert_eq!(get_pair_by_index(&c, 1), derive_pair_key(&addr(4), 2, &addr(3)));
}

#[test]
fn batch_mint_over_entries() {
    let mut c = owned();
    let assets = vec![addr(1), addr(1)];
    let mptypes = vec![0u64, 0];
    let users = vec![addr(2), addr(2)];
    let amounts = vec![n(5), n(6)];
    assert_eq!(batchMint(&mut c, &msg_from(7), 2, &assets, &mptypes, &users, &amounts, 0), Ok(()));
    let key = derive_pair_key(&addr(1), 0, &addr(2));
    assert_eq!(get_unclaimed(&c, &key).u64(), 11);
    assert_eq!(
        batchMint(&mut c, &msg_from(8), 2, &assets, &mptypes, &users, &amounts, 0),
        Err(ContractError::NotOwner)
    );
    assert_eq!(get_unclaimed(&c, &key).u64(), 11);
}

#[test]
fn address_text_and_checks() {
    let a = Address::new(vec![0x00, 0x1f, 0xa0, 0xff]);
    assert_eq!(a.to_string(), "001fa0ff");
    assert!(Address::decode_value(vec![1; 19]).is_err());
    assert!(Address::decode_value(vec![1; 20]).is_ok());
    assert!(addr(3).eq(&addr(3)));
    assert!(!addr(3).eq(&addr(4)));
    assert!(Address::new(vec![1, 2]).eq(&Address::new(vec![1, 2, 3])));
    // a shorter address that differs within its length compares unequal
    assert!(!Address::new(vec![1, 2, 3]).eq(&Address::new(vec![1, 9])));
}

#[test]
fn registered_pair_at_full_count() {
    let mut c = Contract::new();
    assert_eq!(save_pair(&mut c, &addr(1), 2, &addr(3)), 1);
    set_pairs_count(&mut c, u64::MAX);
    assert_eq!(save_pair(&mut c, &addr(1), 2, &addr(3)), 1);
    assert_eq!(pairs_count(&c), u64::MAX);
    let mut owner = Contract::new();
    init(&mut owner, &msg_from(7), 1);
    save_pair(&mut owner, &addr(1), 0, &addr(2));
    set_pairs_count(&mut owner, u64::MAX);
    let (assets, mptypes, users) = (vec![addr(1)], vec![0u64], vec![addr(2)]);
    assert!(batch_mint_fits(&owner, 1, &assets, &mptypes, &users, &vec![n(3)]));
    assert!(!batch_mint_fits(&owner, 1, &vec![addr(5)], &mptypes, &users, &vec![n(3)]));
    assert_eq!(batchMint(&mut owner, &msg_from(7), 1, &assets, &mptypes, &users, &vec![n(3)], 0), Ok(()));
    assert_eq!(get_unclaimed(&owner, &derive_pair_key(&addr(1), 0, &addr(2))).u64(), 3);
}

#[test]
fn snapshot_restores_the_storage() {
    let mut c = owned();
    mint(&mut c, &msg_from(7), addr(1), 0, addr(2), n(9)).unwrap();
    setHarvestRatioLimit(&mut c, &msg_from(7), addr(1), n(4)).unwrap();
    save_pair(&mut c, &addr(1), 0, &addr(2));
    let r = Contract::from_snapshot(c.into_snapshot());
    assert_eq!(getChainId(&r), 42);
    assert_eq!(getOwner(&r).as_slice(), addr(7).as_slice());
    assert_eq!(get_unclaimed(&r, &derive_pair_key(&addr(1), 0, &addr(2))).u64(), 9);
    assert_eq!(getHarvestRatioLimit(&r, addr(1)).u64(), 4);
    assert_eq!(get_pair_by_index(&r, 1), derive_pair_key(&addr(1), 0, &addr(2)));
}

#[test]
fn batch_mint_fits_tracks_running_rewards() {
    let mut c = owned();
    mint(&mut c, &msg_from(7), addr(1), 0, addr(2), U256::max().sub(&n(10))).unwrap();
    let assets = vec![addr(1), addr(1)];
    let mptypes = vec![0u64, 0];
    let users = vec![addr(2), addr(2)];
    assert!(batch_mint_fits(&c, 2, &assets, &mptypes, &users, &vec![n(5), n(5)]));
    assert!(!batch_mint_fits(&c, 2, &assets, &mptypes, &users, &vec![n(5), n(6)]));
    assert!(batch_mint_fits(&c, 1, &assets, &mptypes, &users, &vec![n(10), n(6)]));
}
