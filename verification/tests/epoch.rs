use paratensor::epoch::compute;
use paratensor::epoch::gate_of;
use paratensor::epoch::rows_in_order;
use paratensor::epoch::scatter;
use paratensor::epoch::try_compute;
use paratensor::fixed::normalize;
use paratensor::fixed::total;
use paratensor::fixed::widen;
use paratensor::AccountId;
use paratensor::Config;
use paratensor::Error;
use paratensor::Hyper;
use paratensor::Pallet;

fn key(n: u128) -> AccountId {
    AccountId { hi: 7, lo: n }
}

fn config() -> Config {
    Config {
        initial_issuance: 0,
        initial_blocks_per_step: 100,
        initial_min_allowed_weights: 1,
        initial_max_allowed_max_min_ratio: 65535,
        initial_tempo: 10,
        max_allowed_uids: 4,
        block_emission: 1_000_000,
        trust_threshold: 32767,
        clip_steepness: 10,
        bond_smoothing: 6553,
        incentive_split: 32767,
    }
}

/// Three neurons with stakes 500, 300 and 200 that endorse one another in a
/// cycle, on subnetwork 1 with all of the emission.
fn cycle() -> Pallet {
    let mut p = Pallet::new(config());
    p.add_network(1).unwrap();
    p.sudo_set_emission_ratio(1, 65535).unwrap();
    let stakes: [u64; 3] = [500, 300, 200];
    for i in 0..3u128 {
        let uid = p.register(0, key(i), key(100 + i), 1, true).unwrap();
        assert_eq!(uid as u128, i);
        p.add_stake(key(100 + i), key(i), stakes[i as usize], 1_000).unwrap();
    }
    p.set_weights(key(0), 1, vec![1], vec![65535]).unwrap();
    p.set_weights(key(1), 1, vec![2], vec![65535]).unwrap();
    p.set_weights(key(2), 1, vec![0], vec![65535]).unwrap();
    p
}

#[test]
fn normalize_gives_each_entry_its_share() {
    assert_eq!(normalize(&vec![1, 2, 3]), vec![10922, 21845, 32767]);
    assert_eq!(normalize(&vec![500, 300, 200]), vec![32767, 19660, 13107]);
    assert_eq!(normalize(&vec![0, 7, 0]), vec![0, 65535, 0]);
    assert_eq!(normalize(&vec![u64::MAX, u64::MAX]), vec![32767, 32767]);
}

#[test]
fn normalize_keeps_zeros_and_empty() {
    assert_eq!(normalize(&vec![0, 0, 0]), vec![0, 0, 0]);
    assert_eq!(normalize(&Vec::new()), Vec::<u16>::new());
}

#[test]
fn normalized_sum_is_one_within_one_unit_per_entry() {
    let rows: Vec<Vec<u64>> = vec![
        vec![1, 2, 3],
        vec![1, 1, 1, 1, 1, 1, 1],
        vec![9, 1],
        vec![65535],
        vec![3, 0, 5, 0, 11, 13, 17],
    ];
    for row in rows {
        let sum: u64 = normalize(&row).iter().map(|x| *x as u64).sum();
        assert!(sum <= 65535);
        assert!(sum + row.len() as u64 > 65535);
    }
}

#[test]
fn total_adds_up_without_overflow() {
    assert_eq!(total(&vec![1, 2, 3]), 6);
    assert_eq!(total(&vec![u64::MAX, u64::MAX, 2]), 2 * (u64::MAX as u128) + 2);
    assert_eq!(total(&Vec::new()), 0);
}

#[test]
fn widen_keeps_values() {
    assert_eq!(widen(&vec![0, 1, 65535]), vec![0u64, 1, 65535]);
}

#[test]
fn gate_is_half_at_threshold_and_clipped() {
    assert_eq!(gate_of(32767, 32767, 10), 32767);
    assert_eq!(gate_of(0, 32767, 10), 0);
    assert_eq!(gate_of(30000, 32767, 10), 5097);
    assert_eq!(gate_of(33000, 32767, 10), 35097);
    assert_eq!(gate_of(65535, 32767, 10), 65535);
    assert_eq!(gate_of(32000, 32767, 1), 32000);
    assert_eq!(gate_of(123, 456, 0), 32767);
}

#[test]
fn scatter_sums_share_times_weight_by_target() {
    let shares: Vec<u16> = vec![10, 20, 30];
    let rows: Vec<Vec<(u16, u16)>> = vec![vec![(1, 3), (2, 4)], vec![(0, 5)], vec![(1, 7), (0, 1)]];
    assert_eq!(scatter(&shares, &rows), vec![20 * 5 + 30 * 1, 10 * 3 + 30 * 7, 10 * 4]);
}

#[test]
fn cyclic_endorsement_passes_stake_along() {
    let mut p = cycle();
    let paid = p.run_epoch(1, 10).unwrap().unwrap().paid;
    let s = p.network(1).unwrap();
    assert_eq!(s.rank(), &vec![13107, 32767, 19660]);
    assert_eq!(s.trust(), &vec![65535, 65535, 65535]);
    assert_eq!(s.consensus(), &vec![13107, 32767, 19660]);
    assert_eq!(s.incentive(), &vec![13107, 32767, 19660]);
    let sum: u32 = s.incentive().iter().map(|x| *x as u32).sum();
    assert!(sum <= 65535 && sum + 3 > 65535);
    assert_eq!(s.dividends(), &vec![32767, 19660, 13107]);
    assert_eq!(s.bonds(), &vec![vec![(1, 6553)], vec![(2, 6553)], vec![(0, 6553)]]);
    assert_eq!(paid, vec![3499984, 3999907, 2499953]);
    assert_eq!(s.emission(), &paid);
    assert_eq!(s.last_epoch(), 10);
}

#[test]
fn epoch_credits_emission_to_stake() {
    let mut p = cycle();
    let payout = p.run_epoch(1, 10).unwrap().unwrap();
    assert_eq!(payout.total, 3499984 + 3999907 + 2499953);
    assert_eq!(p.total_stake(), 1000 + payout.total);
    let paid = payout.paid;
    assert_eq!(p.ledger().stake_of(key(0)), 500 + paid[0]);
    assert_eq!(p.ledger().stake_of(key(1)), 300 + paid[1]);
    assert_eq!(p.ledger().stake_of(key(2)), 200 + paid[2]);
    assert_eq!(p.total_stake(), 1000 + paid[0] + paid[1] + paid[2]);
    assert!(paid[0] + paid[1] + paid[2] <= 10_000_000);
}

#[test]
fn epoch_is_not_run_before_it_is_due() {
    let mut p = cycle();
    assert!(!p.epoch_due(1, 9));
    assert!(p.epoch_due(1, 10));
    assert!(!p.epoch_due(2, 10));
    assert_eq!(p.run_epoch(1, 9), Ok(None));
    assert_eq!(p.network(1).unwrap().rank(), &vec![0, 0, 0]);
    assert_eq!(p.total_stake(), 1000);
    assert_eq!(p.network(1).unwrap().last_epoch(), 0);
}

#[test]
fn epoch_run_twice_at_one_block_changes_nothing_more() {
    let mut p = cycle();
    p.run_epoch(1, 10).unwrap().unwrap();
    let stake = p.total_stake();
    assert_eq!(p.run_epoch(1, 10), Ok(None));
    assert_eq!(p.total_stake(), stake);
    assert_eq!(p.network(1).unwrap().bonds(), &vec![vec![(1, 6553)], vec![(2, 6553)], vec![(0, 6553)]]);
}

#[test]
fn epoch_on_missing_network_fails() {
    let mut p = cycle();
    assert_eq!(p.run_epoch(9, 10), Err(Error::InvalidUid));
}

#[test]
fn epoch_that_could_overflow_stake_fails_without_change() {
    let mut c = config();
    c.block_emission = u64::MAX;
    let mut p = Pallet::new(c);
    p.add_network(1).unwrap();
    p.sudo_set_emission_ratio(1, 65535).unwrap();
    p.register(0, key(0), key(100), 1, true).unwrap();
    p.add_stake(key(100), key(0), 5, 5).unwrap();
    assert_eq!(p.run_epoch(1, 10), Err(Error::StorageOverflow));
    assert_eq!(p.total_stake(), 5);
    assert_eq!(p.network(1).unwrap().last_epoch(), 0);
    assert_eq!(p.run_epoch(1, u64::MAX), Err(Error::StorageOverflow));
}

#[test]
fn zero_stake_epoch_scores_nothing_and_only_decays_bonds() {
    let mut p = cycle();
    p.run_epoch(1, 10).unwrap().unwrap();
    for i in 0..3u128 {
        let held = p.ledger().stake_of(key(i));
        p.remove_stake(key(100 + i), key(i), held).unwrap();
    }
    assert_eq!(p.total_stake(), 0);
    let payout = p.run_epoch(1, 20).unwrap().unwrap();
    assert_eq!(payout.total, 0);
    let paid = payout.paid;
    let s = p.network(1).unwrap();
    assert_eq!(paid, vec![0, 0, 0]);
    assert_eq!(s.rank(), &vec![0, 0, 0]);
    assert_eq!(s.trust(), &vec![0, 0, 0]);
    assert_eq!(s.consensus(), &vec![0, 0, 0]);
    assert_eq!(s.incentive(), &vec![0, 0, 0]);
    assert_eq!(s.dividends(), &vec![0, 0, 0]);
    assert_eq!(s.bonds(), &vec![vec![(1, 5897)], vec![(2, 5897)], vec![(0, 5897)]]);
    assert_eq!(p.total_stake(), 0);
}

#[test]
fn compute_on_a_mixed_graph() {
    let hyper = Hyper { min_allowed: 1, ratio: 2, kappa: 40000, rho: 3, alpha: 32768, split: 16384 };
    let stake: Vec<u64> = vec![100, 200, 300, 400];
    let active: Vec<bool> = vec![true, true, true, false];
    let weights: Vec<Vec<(u16, u16)>> =
        vec![vec![(1, 3), (2, 1)], vec![(0, 1), (2, 1), (3, 2)], vec![(3, 5)], vec![]];
    let bonds: Vec<Vec<(u16, u16)>> =
        vec![vec![(1, 1000)], vec![(0, 2000), (1, 5)], vec![], vec![(2, 9)]];
    let out = compute(&stake, &active, &weights, &bonds, hyper, 1_000_003);
    assert_eq!(out.rank, vec![5461, 7281, 9101, 43689]);
    assert_eq!(out.trust, vec![16383, 43690, 18203, 52427]);
    assert_eq!(out.consensus, vec![0, 4870, 0, 43689]);
    assert_eq!(out.incentive, vec![0, 6572, 0, 58962]);
    assert_eq!(
        out.bonds,
        vec![
            vec![(1, 22345), (2, 10922)],
            vec![(0, 9191), (1, 2), (2, 8191), (3, 16383)],
            vec![(3, 32768)],
            vec![(2, 4)],
        ]
    );
    assert_eq!(out.dividends, vec![3160, 20790, 41583, 0]);
    assert_eq!(out.emission, vec![36163, 262995, 475886, 224929]);
    let paid: u64 = out.emission.iter().sum();
    assert!(paid <= 1_000_003);
}

#[test]
fn compute_drops_rows_with_too_few_weights() {
    let hyper = Hyper { min_allowed: 2, ratio: 65535, kappa: 0, rho: 0, alpha: 65535, split: 65535 };
    let stake: Vec<u64> = vec![1, 1];
    let active: Vec<bool> = vec![true, true];
    let weights: Vec<Vec<(u16, u16)>> = vec![vec![(1, 9)], vec![(0, 4), (1, 4)]];
    let bonds: Vec<Vec<(u16, u16)>> = vec![vec![], vec![]];
    let out = compute(&stake, &active, &weights, &bonds, hyper, 0);
    assert_eq!(out.rank, vec![16383, 16383]);
    assert_eq!(out.bonds, vec![vec![], vec![(0, 32767), (1, 32767)]]);
    assert_eq!(out.emission, vec![0, 0]);
}

#[test]
fn compute_on_nothing() {
    let hyper = Hyper { min_allowed: 0, ratio: 1, kappa: 0, rho: 0, alpha: 0, split: 0 };
    let out = compute(&Vec::new(), &Vec::new(), &Vec::new(), &Vec::new(), hyper, 77);
    assert!(out.rank.is_empty());
    assert!(out.bonds.is_empty());
    assert!(out.emission.is_empty());
}

#[test]
fn rows_in_order_wants_distinct_targets_in_range() {
    assert!(rows_in_order(&vec![vec![(1, 5), (0, 5)], vec![]]));
    assert!(!rows_in_order(&vec![vec![(1, 5), (1, 6)], vec![]]));
    assert!(!rows_in_order(&vec![vec![(2, 5)], vec![]]));
    assert!(rows_in_order(&Vec::new()));
}

#[test]
fn try_compute_refuses_vectors_that_do_not_fit() {
    let hyper = Hyper { min_allowed: 1, ratio: 65535, kappa: 32767, rho: 10, alpha: 6553, split: 32767 };
    let stake: Vec<u64> = vec![500, 300, 200];
    let active: Vec<bool> = vec![true, true, true];
    let weights: Vec<Vec<(u16, u16)>> = vec![vec![(1, 65535)], vec![(2, 65535)], vec![(0, 65535)]];
    let bonds: Vec<Vec<(u16, u16)>> = vec![vec![], vec![], vec![]];
    let out = try_compute(&stake, &active, &weights, &bonds, hyper, 10_000_000).unwrap();
    assert_eq!(out.rank, vec![13107, 32767, 19660]);
    assert_eq!(out.emission, vec![3499984, 3999907, 2499953]);
    assert!(try_compute(&stake, &vec![true, true], &weights, &bonds, hyper, 0).is_none());
    assert!(try_compute(&stake, &active, &weights, &vec![vec![], vec![]], hyper, 0).is_none());
    let beyond: Vec<Vec<(u16, u16)>> = vec![vec![(3, 1)], vec![], vec![]];
    assert!(try_compute(&stake, &active, &beyond, &bonds, hyper, 0).is_none());
    let twice: Vec<Vec<(u16, u16)>> = vec![vec![(1, 1), (1, 2)], vec![], vec![]];
    assert!(try_compute(&stake, &active, &weights, &twice, hyper, 0).is_none());
}
