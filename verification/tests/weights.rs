use paratensor::weights::check_weights;
use paratensor::weights::clip;
use paratensor::weights::count_nonzero_of;
use paratensor::weights::effective_values;
use paratensor::weights::has_duplicate;
use paratensor::weights::min_nonzero_of;
use paratensor::weights::normalized_row;
use paratensor::weights::ratio_exceeded;
use paratensor::weights::targets_live;
use paratensor::weights::targets_of;
use paratensor::weights::values_of;
use paratensor::weights::zip;
use paratensor::AccountId;
use paratensor::Config;
use paratensor::Error;
use paratensor::Event;
use paratensor::Pallet;

fn key(n: u128) -> AccountId {
    AccountId { hi: 3, lo: n }
}

fn config() -> Config {
    Config {
        initial_issuance: 0,
        initial_blocks_per_step: 100,
        initial_min_allowed_weights: 2,
        initial_max_allowed_max_min_ratio: 10,
        initial_tempo: 10,
        max_allowed_uids: 8,
        block_emission: 1_000,
        trust_threshold: 32767,
        clip_steepness: 10,
        bond_smoothing: 65535,
        incentive_split: 32767,
    }
}

fn three() -> Pallet {
    let mut p = Pallet::new(config());
    p.add_network(1).unwrap();
    for i in 0..3u128 {
        p.register(0, key(i), key(100 + i), 1, true).unwrap();
    }
    p
}

#[test]
fn set_weights_stores_normalized_row() {
    let mut p = three();
    assert_eq!(p.set_weights(key(2), 1, vec![0, 1], vec![1, 3]), Ok(Event::WeightsSet(1, 2)));
    let s = p.network(1).unwrap();
    assert_eq!(s.weights()[2], vec![(0, 16383), (1, 49151)]);
    assert!(s.weights()[0].is_empty());
    assert_eq!(p.set_weights(key(2), 1, vec![1, 2], vec![5, 5]), Ok(Event::WeightsSet(1, 2)));
    assert_eq!(p.network(1).unwrap().weights()[2], vec![(1, 32767), (2, 32767)]);
}

#[test]
fn set_weights_length_mismatch_fails_without_change() {
    let mut p = three();
    p.set_weights(key(0), 1, vec![1, 2], vec![1, 1]).unwrap();
    assert_eq!(p.set_weights(key(0), 1, vec![0, 1], vec![1]), Err(Error::WeightVecNotEqualSize));
    assert_eq!(p.network(1).unwrap().weights()[0], vec![(1, 32767), (2, 32767)]);
    assert!(p.network(1).unwrap().weights()[1].is_empty());
}

#[test]
fn set_weights_rejects_duplicate_targets() {
    let mut p = three();
    assert_eq!(p.set_weights(key(0), 1, vec![1, 2, 1], vec![1, 1, 1]), Err(Error::DuplicateUids));
    assert!(p.network(1).unwrap().weights()[0].is_empty());
}

#[test]
fn set_weights_rejects_unknown_target() {
    let mut p = three();
    assert_eq!(p.set_weights(key(0), 1, vec![1, 3], vec![1, 1]), Err(Error::InvalidUid));
    p.deregister(1, 2).unwrap();
    assert_eq!(p.set_weights(key(0), 1, vec![1, 2], vec![1, 1]), Err(Error::InvalidUid));
    assert!(p.network(1).unwrap().weights()[0].is_empty());
}

#[test]
fn set_weights_rejects_too_few_weights() {
    let mut p = three();
    assert_eq!(p.set_weights(key(0), 1, vec![1], vec![1]), Err(Error::NotSettingEnoughWeights));
    assert_eq!(
        p.set_weights(key(0), 1, vec![1, 2], vec![1, 0]),
        Err(Error::NotSettingEnoughWeights)
    );
    assert_eq!(p.set_weights(key(0), 1, vec![], vec![]), Err(Error::NotSettingEnoughWeights));
}

#[test]
fn set_weights_rejects_ratio_above_limit() {
    let mut p = three();
    assert_eq!(
        p.set_weights(key(0), 1, vec![1, 2], vec![1, 11]),
        Err(Error::MaxAllowedMaxMinRatioExceeded)
    );
    assert_eq!(p.set_weights(key(0), 1, vec![1, 2], vec![1, 10]), Ok(Event::WeightsSet(1, 0)));
}

#[test]
fn set_weights_needs_network_and_seated_caller() {
    let mut p = three();
    assert_eq!(p.set_weights(key(0), 2, vec![1, 2], vec![1, 1]), Err(Error::InvalidUid));
    assert_eq!(p.set_weights(key(9), 1, vec![1, 2], vec![1, 1]), Err(Error::NotRegistered));
    assert_eq!(p.set_weights(key(9), 1, vec![1], vec![1, 1]), Err(Error::NotRegistered));
}

#[test]
fn checks_come_in_order() {
    let keys = vec![Some(key(0)), None, Some(key(2))];
    assert_eq!(
        check_weights(&vec![0, 0], &vec![1], &keys, 5, 1),
        Err(Error::WeightVecNotEqualSize)
    );
    assert_eq!(check_weights(&vec![1, 1], &vec![1, 50], &keys, 5, 1), Err(Error::DuplicateUids));
    assert_eq!(check_weights(&vec![0, 1], &vec![1, 50], &keys, 5, 1), Err(Error::InvalidUid));
    assert_eq!(
        check_weights(&vec![0, 2], &vec![1, 50], &keys, 5, 1),
        Err(Error::NotSettingEnoughWeights)
    );
    assert_eq!(
        check_weights(&vec![0, 2], &vec![1, 50], &keys, 2, 49),
        Err(Error::MaxAllowedMaxMinRatioExceeded)
    );
    assert_eq!(check_weights(&vec![0, 2], &vec![1, 50], &keys, 2, 50), Ok(()));
    assert_eq!(check_weights(&vec![], &vec![], &keys, 0, 0), Ok(()));
}

#[test]
fn row_statistics() {
    assert_eq!(count_nonzero_of(&vec![0, 3, 0, 9]), 2);
    assert_eq!(count_nonzero_of(&vec![]), 0);
    assert_eq!(min_nonzero_of(&vec![0, 3, 0, 9, 2]), 2);
    assert_eq!(min_nonzero_of(&vec![0, 0]), 0);
    assert!(ratio_exceeded(&vec![2, 7], 3));
    assert!(!ratio_exceeded(&vec![2, 6, 0], 3));
    assert!(ratio_exceeded(&vec![1], 0));
    assert!(!ratio_exceeded(&vec![0, 0], 0));
    assert!(has_duplicate(&vec![4, 5, 4]));
    assert!(!has_duplicate(&vec![4, 5, 6]));
    let keys = vec![Some(key(0)), None];
    assert!(targets_live(&vec![0], &keys));
    assert!(!targets_live(&vec![0, 1], &keys));
    assert!(!targets_live(&vec![2], &keys));
}

#[test]
fn clip_lowers_weights_to_the_cap() {
    assert_eq!(clip(&vec![1, 10, 2, 0], 2), vec![1, 2, 2, 0]);
    assert_eq!(clip(&vec![3, 65535], 65535), vec![3, 65535]);
    assert_eq!(clip(&vec![5, 9], 0), vec![0, 0]);
}

#[test]
fn effective_values_clip_then_normalize() {
    assert_eq!(effective_values(&vec![1, 10], 1, 2), vec![21845, 43690]);
    assert_eq!(effective_values(&vec![1, 10, 0], 3, 2), vec![0, 0, 0]);
    assert_eq!(effective_values(&vec![1, 2, 3], 0, 65535), vec![10922, 21845, 32767]);
    assert_eq!(effective_values(&vec![0, 0], 0, 5), vec![0, 0]);
}

#[test]
fn effective_values_sum_to_one_within_tolerance() {
    let rows: Vec<(Vec<u16>, u16)> = vec![
        (vec![1, 10], 2),
        (vec![1, 2, 3], 65535),
        (vec![7, 7, 7, 7, 7, 7, 7], 1),
        (vec![65535, 1, 65535, 1, 300], 100),
        (vec![0, 0, 9], 1),
    ];
    for (row, ratio) in rows {
        let sum: u64 = effective_values(&row, 1, ratio).iter().map(|x| *x as u64).sum();
        assert!(sum <= 65535);
        assert!(sum + row.len() as u64 > 65535);
    }
}

#[test]
fn rows_split_and_zip() {
    let row = vec![(3u16, 30u16), (1, 10)];
    assert_eq!(targets_of(&row), vec![3, 1]);
    assert_eq!(values_of(&row), vec![30, 10]);
    assert_eq!(zip(&vec![3, 1], &vec![30, 10]), row);
    assert_eq!(normalized_row(&vec![3, 1], &vec![30, 10]), vec![(3, 49151), (1, 16383)]);
}
