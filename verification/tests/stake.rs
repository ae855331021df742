use paratensor::ledger::hotkeys_distinct;
use paratensor::Account;
use paratensor::AccountId;
use paratensor::Axon;
use paratensor::Config;
use paratensor::Error;
use paratensor::Event;
use paratensor::Ledger;
use paratensor::Pallet;

fn key(n: u128) -> AccountId {
    AccountId { hi: 2, lo: n }
}

fn config() -> Config {
    Config {
        initial_issuance: 21,
        initial_blocks_per_step: 100,
        initial_min_allowed_weights: 0,
        initial_max_allowed_max_min_ratio: 65535,
        initial_tempo: 10,
        max_allowed_uids: 8,
        block_emission: 1_000,
        trust_threshold: 32767,
        clip_steepness: 10,
        bond_smoothing: 65535,
        incentive_split: 32767,
    }
}

fn staked() -> Pallet {
    let mut p = Pallet::new(config());
    p.add_network(0).unwrap();
    p.register(0, key(0), key(100), 0, true).unwrap();
    p.register(0, key(1), key(101), 0, true).unwrap();
    p.add_stake(key(100), key(0), 70, 100).unwrap();
    p.add_stake(key(101), key(1), 30, 100).unwrap();
    p
}

fn sum_of_stakes(p: &Pallet) -> u64 {
    p.ledger().accounts().iter().map(|a| a.stake).sum()
}

#[test]
fn add_stake_moves_total_by_amount() {
    let mut p = staked();
    assert_eq!(p.total_stake(), 100);
    assert_eq!(p.add_stake(key(100), key(0), 5, 5), Ok(Event::StakeAdded(key(0), 5)));
    assert_eq!(p.total_stake(), 105);
    assert_eq!(p.ledger().stake_of(key(0)), 75);
    assert_eq!(p.ledger().stake_of(key(1)), 30);
    assert_eq!(sum_of_stakes(&p), p.total_stake());
}

#[test]
fn remove_stake_moves_total_by_amount() {
    let mut p = staked();
    assert_eq!(p.remove_stake(key(101), key(1), 30), Ok(Event::StakeRemoved(key(1), 30)));
    assert_eq!(p.total_stake(), 70);
    assert_eq!(p.ledger().stake_of(key(1)), 0);
    assert_eq!(p.ledger().stake_of(key(0)), 70);
    assert_eq!(sum_of_stakes(&p), p.total_stake());
}

#[test]
fn remove_stake_beyond_holding_fails_and_changes_nothing() {
    let mut p = staked();
    assert_eq!(p.remove_stake(key(100), key(0), 71), Err(Error::NotEnoughStaketoWithdraw));
    assert_eq!(p.ledger().stake_of(key(0)), 70);
    assert_eq!(p.total_stake(), 100);
    assert_eq!(sum_of_stakes(&p), 100);
}

#[test]
fn total_stake_is_sum_of_stakes_throughout() {
    let mut p = staked();
    p.sudo_set_emission_ratio(0, 65535).unwrap();
    p.set_weights(key(0), 0, vec![1], vec![1]).unwrap();
    assert_eq!(sum_of_stakes(&p), p.total_stake());
    p.run_epoch(0, 10).unwrap().unwrap();
    assert_eq!(sum_of_stakes(&p), p.total_stake());
    p.remove_stake(key(100), key(0), 1).unwrap();
    assert_eq!(sum_of_stakes(&p), p.total_stake());
    p.deregister(0, 0).unwrap();
    assert_eq!(sum_of_stakes(&p), p.total_stake());
    p.register(11, key(5), key(105), 0, true).unwrap();
    assert_eq!(sum_of_stakes(&p), p.total_stake());
}

#[test]
fn add_stake_fails_for_unknown_hotkey() {
    let mut p = staked();
    assert_eq!(p.add_stake(key(100), key(9), 1, 1), Err(Error::NotRegistered));
    assert_eq!(p.remove_stake(key(100), key(9), 1), Err(Error::NotRegistered));
    assert_eq!(p.total_stake(), 100);
}

#[test]
fn stake_moves_only_for_the_bound_coldkey() {
    let mut p = staked();
    assert_eq!(p.add_stake(key(101), key(0), 1, 1), Err(Error::NonAssociatedColdKey));
    assert_eq!(p.remove_stake(key(101), key(0), 1), Err(Error::NonAssociatedColdKey));
    assert_eq!(p.add_stake(key(0), key(0), 1, 1), Err(Error::NonAssociatedColdKey));
    assert_eq!(p.total_stake(), 100);
}

#[test]
fn add_stake_beyond_balance_fails() {
    let mut p = staked();
    assert_eq!(p.add_stake(key(100), key(0), 6, 5), Err(Error::NotEnoughBalanceToStake));
    assert_eq!(p.ledger().stake_of(key(0)), 70);
    assert_eq!(p.add_stake(key(100), key(0), 5, 5), Ok(Event::StakeAdded(key(0), 5)));
}

#[test]
fn add_stake_that_overflows_total_fails() {
    let mut p = staked();
    assert_eq!(
        p.add_stake(key(100), key(0), u64::MAX - 99, u64::MAX),
        Err(Error::StorageOverflow)
    );
    assert_eq!(p.total_stake(), 100);
    assert_eq!(
        p.add_stake(key(100), key(0), u64::MAX - 100, u64::MAX),
        Ok(Event::StakeAdded(key(0), u64::MAX - 100))
    );
    assert_eq!(p.total_stake(), u64::MAX);
}

#[test]
fn stake_stays_after_deregistration() {
    let mut p = staked();
    p.deregister(0, 1).unwrap();
    assert_eq!(p.ledger().stake_of(key(1)), 30);
    assert_eq!(p.remove_stake(key(101), key(1), 10), Ok(Event::StakeRemoved(key(1), 10)));
    assert_eq!(p.total_stake(), 90);
}

#[test]
fn ledger_operations_on_their_own() {
    let mut l = Ledger::new();
    assert_eq!(l.len(), 0);
    assert_eq!(l.find(key(1)), None);
    l.open(key(1), key(11));
    l.open(key(2), key(12));
    assert_eq!(l.find(key(2)), Some(1));
    l.credit(1, 9);
    l.credit(0, 4);
    l.debit(1, 3);
    assert_eq!(l.stake_of(key(2)), 6);
    assert_eq!(l.stake_of(key(3)), 0);
    assert_eq!(l.total_stake(), 10);
    l.serve(0, Axon { version: 1, ip: 2, port: 3, ip_type: 6, modality: 1 });
    assert_eq!(l.account(0).axon.port, 3);
    assert_eq!(l.account(0).stake, 4);
    assert_eq!(l.account(0).coldkey, key(11));
    assert_eq!(l.add_stake(key(12), key(2), 1, 1), Ok(Event::StakeAdded(key(2), 1)));
    assert_eq!(l.remove_stake(key(12), key(2), 8), Err(Error::NotEnoughStaketoWithdraw));
    assert_eq!(l.total_stake(), 11);
}

#[test]
fn ledger_from_parts_checks_the_accounts() {
    let axon = Axon { version: 0, ip: 0, port: 0, ip_type: 0, modality: 0 };
    let a = Account { hotkey: key(1), coldkey: key(11), stake: 5, axon };
    let b = Account { hotkey: key(2), coldkey: key(11), stake: 6, axon };
    let l = Ledger::from_parts(vec![a, b]).unwrap();
    assert_eq!(l.total_stake(), 11);
    assert_eq!(l.accounts(), &vec![a, b]);
    assert_eq!(l.into_parts(), vec![a, b]);
    assert!(Ledger::from_parts(vec![a, b, a]).is_none());
    let big = Account { hotkey: key(3), coldkey: key(11), stake: u64::MAX - 10, axon };
    assert!(Ledger::from_parts(vec![a, b, big]).is_none());
    assert!(Ledger::from_parts(vec![a, big]).is_some());
    assert!(hotkeys_distinct(&vec![a, b]));
    assert!(!hotkeys_distinct(&vec![b, a, b]));
}
