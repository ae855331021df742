use paratensor::subnet::count_occupied;
use paratensor::subnet::keys_distinct;
use paratensor::subnet::purge;
use paratensor::AccountId;
use paratensor::Config;
use paratensor::DefaultActive;
use paratensor::DefaultBlocksPerStep;
use paratensor::DefaultBonds;
use paratensor::DefaultColdkeyAccount;
use paratensor::DefaultConsensus;
use paratensor::DefaultDividends;
use paratensor::DefaultEmission;
use paratensor::DefaultEmissionRatio;
use paratensor::DefaultHotkeyAccount;
use paratensor::DefaultIncentive;
use paratensor::DefaultKey;
use paratensor::DefaultMaxAllowedMaxMinRatio;
use paratensor::DefaultMinAllowedWeights;
use paratensor::DefaultN;
use paratensor::DefaultRank;
use paratensor::DefaultStake;
use paratensor::DefaultTempo;
use paratensor::DefaultTotalIssuance;
use paratensor::DefaultTrust;
use paratensor::DefaultUid;
use paratensor::DefaultWeights;
use paratensor::Error;
use paratensor::Event;
use paratensor::Hyper;
use paratensor::Ledger;
use paratensor::Pallet;
use paratensor::Subnet;

fn key(n: u128) -> AccountId {
    AccountId { hi: 4, lo: n }
}

fn config() -> Config {
    Config {
        initial_issuance: 21_000,
        initial_blocks_per_step: 100,
        initial_min_allowed_weights: 3,
        initial_max_allowed_max_min_ratio: 50,
        initial_tempo: 12,
        max_allowed_uids: 8,
        block_emission: 1_000,
        trust_threshold: 32767,
        clip_steepness: 10,
        bond_smoothing: 65535,
        incentive_split: 32767,
    }
}

fn two_networks() -> Pallet {
    let mut p = Pallet::new(config());
    p.add_network(1).unwrap();
    p.add_network(2).unwrap();
    p
}

#[test]
fn emission_ratios_add_up_to_at_most_one() {
    let mut p = two_networks();
    assert_eq!(p.calculate_emission_ratio_sum(), 0);
    assert_eq!(p.sudo_set_emission_ratio(1, 40000), Ok(()));
    assert_eq!(p.sudo_set_emission_ratio(2, 25535), Ok(()));
    assert_eq!(p.calculate_emission_ratio_sum(), 65535);
    assert_eq!(p.network(1).unwrap().emission_ratio(), 40000);
    assert_eq!(p.network(2).unwrap().emission_ratio(), 25535);
}

#[test]
fn emission_ratio_beyond_one_is_rejected_without_change() {
    let mut p = two_networks();
    p.sudo_set_emission_ratio(1, 40000).unwrap();
    assert_eq!(p.sudo_set_emission_ratio(2, 25536), Err(Error::EmissionRatioSumExceeded));
    assert_eq!(p.network(2).unwrap().emission_ratio(), 0);
    assert_eq!(p.calculate_emission_ratio_sum(), 40000);
    assert_eq!(p.sudo_set_emission_ratio(2, 65535), Err(Error::EmissionRatioSumExceeded));
    assert_eq!(p.calculate_emission_ratio_sum(), 40000);
}

#[test]
fn emission_ratio_can_replace_its_own_share() {
    let mut p = two_networks();
    p.sudo_set_emission_ratio(1, 40000).unwrap();
    p.sudo_set_emission_ratio(2, 25535).unwrap();
    assert_eq!(p.sudo_set_emission_ratio(1, 40001), Err(Error::EmissionRatioSumExceeded));
    assert_eq!(p.sudo_set_emission_ratio(1, 10), Ok(()));
    assert_eq!(p.calculate_emission_ratio_sum(), 25545);
    assert_eq!(p.sudo_set_emission_ratio(2, 65525), Ok(()));
    assert_eq!(p.calculate_emission_ratio_sum(), 65535);
}

#[test]
fn emission_ratio_of_missing_network_fails() {
    let mut p = two_networks();
    assert_eq!(p.sudo_set_emission_ratio(7, 1), Err(Error::InvalidUid));
    assert_eq!(p.calculate_emission_ratio_sum(), 0);
}

#[test]
fn removing_a_network_frees_its_ratio() {
    let mut p = two_networks();
    p.sudo_set_emission_ratio(1, 65535).unwrap();
    p.remove_network(1).unwrap();
    assert_eq!(p.calculate_emission_ratio_sum(), 0);
    assert_eq!(p.sudo_set_emission_ratio(2, 65535), Ok(()));
}

#[test]
fn emission_follows_ratio_and_elapsed_blocks() {
    let mut c = config();
    c.trust_threshold = 0;
    let mut p = Pallet::new(c);
    p.add_network(1).unwrap();
    p.sudo_set_emission_ratio(1, 13107).unwrap();
    p.register(0, key(0), key(100), 1, true).unwrap();
    p.register(0, key(1), key(101), 1, true).unwrap();
    p.register(0, key(2), key(102), 1, true).unwrap();
    p.register(0, key(3), key(103), 1, true).unwrap();
    p.add_stake(key(100), key(0), 1, 1).unwrap();
    p.set_weights(key(0), 1, vec![1, 2, 3], vec![1, 1, 1]).unwrap();
    let payout = p.run_epoch(1, 30).unwrap().unwrap();
    assert_eq!(payout.total, 5998);
    let paid = payout.paid;
    assert_eq!(paid, vec![3001, 999, 999, 999]);
    assert_eq!(p.total_stake(), 1 + 5998);
}

#[test]
fn tempo_and_blocks_per_step_are_set() {
    let mut p = two_networks();
    assert_eq!(p.blocks_per_step(), 100);
    assert_eq!(p.sudo_set_blocks_per_step(7), Ok(Event::BlocksPerStepSet(7)));
    assert_eq!(p.blocks_per_step(), 7);
    assert_eq!(p.sudo_set_tempo(2, 3), Ok(Event::TempoSet(3)));
    assert_eq!(p.network(2).unwrap().tempo(), 3);
    assert_eq!(p.network(1).unwrap().tempo(), 12);
    assert_eq!(p.sudo_set_tempo(9, 3), Err(Error::InvalidUid));
    assert!(p.epoch_due(2, 3));
    assert!(!p.epoch_due(1, 3));
    assert_eq!(p.config(), config());
}

#[test]
fn defaults_come_from_the_configuration() {
    let c = config();
    assert_eq!(DefaultTotalIssuance(&c), 21_000);
    assert_eq!(DefaultBlocksPerStep(&c), 100);
    assert_eq!(DefaultMinAllowedWeights(&c), 3);
    assert_eq!(DefaultMaxAllowedMaxMinRatio(&c), 50);
    assert_eq!(DefaultTempo(&c), 12);
    assert_eq!(DefaultEmissionRatio(), 0);
    assert_eq!(DefaultN(), 0);
}

#[test]
fn defaults_for_absent_values_are_empty() {
    assert_eq!(DefaultHotkeyAccount(), None);
    assert_eq!(DefaultColdkeyAccount(), None);
    assert_eq!(DefaultKey(), None);
    assert_eq!(DefaultUid(), None);
    assert!(DefaultWeights().is_empty());
    assert!(DefaultBonds().is_empty());
    assert!(DefaultActive().is_empty());
    assert!(DefaultStake().is_empty());
    assert!(DefaultRank().is_empty());
    assert!(DefaultTrust().is_empty());
    assert!(DefaultIncentive().is_empty());
    assert!(DefaultConsensus().is_empty());
    assert!(DefaultDividends().is_empty());
    assert!(DefaultEmission().is_empty());
}

#[test]
fn state_survives_being_taken_apart() {
    let mut p = two_networks();
    p.sudo_set_emission_ratio(2, 9).unwrap();
    p.register(4, key(0), key(100), 2, true).unwrap();
    p.register(4, key(1), key(101), 2, true).unwrap();
    p.add_stake(key(101), key(1), 8, 8).unwrap();
    p.sudo_set_tempo(2, 1).unwrap();
    let (c, blocks, subnets, ledger) = p.into_parts();
    let mut rebuilt: Vec<Subnet> = Vec::new();
    for s in subnets {
        rebuilt.push(Subnet::from_parts(s.into_parts()).unwrap());
    }
    let ledger = Ledger::from_parts(ledger.into_parts()).unwrap();
    let q = Pallet::from_parts(c, blocks, rebuilt, ledger).unwrap();
    assert_eq!(q.total_stake(), 8);
    assert_eq!(q.lookup_uid(2, key(1)), Some(1));
    assert_eq!(q.network(2).unwrap().tempo(), 1);
    assert_eq!(q.network(2).unwrap().n(), 2);
    assert_eq!(q.calculate_emission_ratio_sum(), 9);
}

#[test]
fn parts_that_do_not_fit_are_refused() {
    let mut p = two_networks();
    p.register(4, key(0), key(100), 2, true).unwrap();
    p.register(4, key(1), key(101), 2, true).unwrap();
    let (c, blocks, mut subnets, ledger) = p.into_parts();
    let s = subnets.pop().unwrap();

    let mut parts = s.into_parts();
    parts.rank.push(0);
    assert!(Subnet::from_parts(parts).is_none());

    let mut parts = Subnet::new(2, 8, c.hyper_of(), 12).into_parts();
    parts.keys = vec![Some(key(0)), Some(key(0))];
    parts.active = vec![true, true];
    parts.last_update = vec![0, 0];
    parts.weights = vec![vec![], vec![]];
    parts.bonds = vec![vec![], vec![]];
    parts.rank = vec![0, 0];
    parts.trust = vec![0, 0];
    parts.consensus = vec![0, 0];
    parts.incentive = vec![0, 0];
    parts.dividends = vec![0, 0];
    parts.emission = vec![0, 0];
    assert!(Subnet::from_parts(parts).is_none());

    let mut parts = Subnet::new(2, 8, c.hyper_of(), 12).into_parts();
    parts.keys = vec![Some(key(0)), None];
    parts.active = vec![true, false];
    parts.last_update = vec![0, 0];
    parts.weights = vec![vec![(1, 5)], vec![]];
    parts.bonds = vec![vec![], vec![]];
    parts.rank = vec![0, 0];
    parts.trust = vec![0, 0];
    parts.consensus = vec![0, 0];
    parts.incentive = vec![0, 0];
    parts.dividends = vec![0, 0];
    parts.emission = vec![0, 0];
    assert!(Subnet::from_parts(parts).is_none());

    let mut parts = Subnet::new(2, 1, c.hyper_of(), 12).into_parts();
    parts.keys = vec![Some(key(0)), Some(key(1))];
    parts.active = vec![true, true];
    parts.last_update = vec![0, 0];
    parts.weights = vec![vec![], vec![]];
    parts.bonds = vec![vec![], vec![]];
    parts.rank = vec![0, 0];
    parts.trust = vec![0, 0];
    parts.consensus = vec![0, 0];
    parts.incentive = vec![0, 0];
    parts.dividends = vec![0, 0];
    parts.emission = vec![0, 0];
    assert!(Subnet::from_parts(parts).is_none());

    let mut seated = Subnet::new(5, 8, c.hyper_of(), 12);
    seated.seat(0, key(77), 0);
    assert!(Pallet::from_parts(c, blocks, vec![seated], Ledger::new()).is_none());

    let twin_a = Subnet::new(5, 8, c.hyper_of(), 12);
    let twin_b = Subnet::new(5, 8, c.hyper_of(), 12);
    assert!(Pallet::from_parts(c, blocks, vec![twin_a, twin_b], ledger).is_none());

    let mut rich_a = Subnet::new(5, 8, c.hyper_of(), 12);
    let mut rich_b = Subnet::new(6, 8, c.hyper_of(), 12);
    rich_a.set_emission_ratio(40000);
    rich_b.set_emission_ratio(40000);
    assert!(Pallet::from_parts(c, blocks, vec![rich_a, rich_b], Ledger::new()).is_none());
}

#[test]
fn subnet_helpers() {
    let keys = vec![Some(key(0)), None, Some(key(2))];
    assert_eq!(count_occupied(&keys), 2);
    assert!(keys_distinct(&keys));
    assert!(!keys_distinct(&vec![Some(key(0)), None, Some(key(0))]));
    assert!(keys_distinct(&vec![None, None]));
    assert_eq!(purge(&vec![(1, 5), (2, 6), (1, 7), (3, 8)], 1), vec![(2, 6), (3, 8)]);
}

#[test]
fn slots_are_reused_lowest_first() {
    let hyper = Hyper { min_allowed: 1, ratio: 50, kappa: 32767, rho: 10, alpha: 65535, split: 32767 };
    let mut s = Subnet::new(9, 3, hyper, 12);
    assert_eq!(s.free_uid(), Some(0));
    s.seat(0, key(0), 1);
    s.seat(1, key(1), 1);
    s.seat(2, key(2), 1);
    assert_eq!(s.free_uid(), None);
    assert_eq!(s.prune_target(&vec![5, 5, 4]), Some(2));
    assert_eq!(s.prune_target(&vec![5, 5, 5]), Some(0));
    s.vacate(1);
    s.vacate(0);
    s.claim(1, key(7), 2);
    assert_eq!(s.lookup_uid(key(7)), Some(1));
    s.store_weights(1, vec![(2, 9)]);
    s.claim(2, key(8), 3);
    assert_eq!(s.lookup_uid(key(2)), None);
    assert_eq!(s.lookup_hotkey(2), Some(key(8)));
    assert!(s.weights()[1].is_empty());
    s.vacate(1);
    s.vacate(2);
    s.seat(2, key(2), 4);
    assert_eq!(s.free_uid(), Some(0));
    assert_eq!(s.prune_target(&vec![0, 0, 9]), Some(2));
    assert_eq!(s.lookup_uid(key(2)), Some(2));
    assert_eq!(s.lookup_hotkey(2), Some(key(2)));
    s.store_weights(2, vec![(2, 65535)]);
    assert_eq!(s.check_weights(&vec![0], &vec![1]), Err(Error::InvalidUid));
    let paid = s.run_epoch(&vec![0, 0, 3], 1000, 7);
    assert_eq!(paid.len(), 3);
    assert_eq!(paid[0], 0);
    assert_eq!(paid[1], 0);
    assert_eq!(s.rank(), &vec![0, 0, 65535]);
}

#[test]
fn global_n_counts_all_seated_neurons() {
    let mut p = two_networks();
    assert_eq!(p.global_n(), 0);
    p.register(0, key(0), key(100), 1, true).unwrap();
    p.register(0, key(1), key(101), 1, true).unwrap();
    p.register(0, key(0), key(100), 2, true).unwrap();
    assert_eq!(p.global_n(), 3);
    p.deregister(1, 0).unwrap();
    assert_eq!(p.global_n(), 2);
    p.remove_network(1).unwrap();
    assert_eq!(p.global_n(), 1);
}
