use paratensor::AccountId;
use paratensor::Config;
use paratensor::Error;
use paratensor::Event;
use paratensor::Pallet;

fn key(n: u128) -> AccountId {
    AccountId { hi: 1, lo: n }
}

fn config(max_allowed_uids: u16) -> Config {
    Config {
        initial_issuance: 0,
        initial_blocks_per_step: 100,
        initial_min_allowed_weights: 0,
        initial_max_allowed_max_min_ratio: 65535,
        initial_tempo: 10,
        max_allowed_uids,
        block_emission: 1_000,
        trust_threshold: 32767,
        clip_steepness: 10,
        bond_smoothing: 65535,
        incentive_split: 32767,
    }
}

fn with_neurons(max_allowed_uids: u16, n: u128) -> Pallet {
    let mut p = Pallet::new(config(max_allowed_uids));
    p.add_network(3).unwrap();
    for i in 0..n {
        p.register(5, key(i), key(100 + i), 3, true).unwrap();
    }
    p
}

#[test]
fn register_seats_at_lowest_free_uid() {
    let mut p = Pallet::new(config(4));
    p.add_network(3).unwrap();
    assert_eq!(p.register(5, key(0), key(100), 3, true), Ok(0));
    assert_eq!(p.register(6, key(1), key(101), 3, true), Ok(1));
    assert_eq!(p.register(7, key(2), key(102), 3, true), Ok(2));
    let s = p.network(3).unwrap();
    assert_eq!(s.n(), 3);
    assert_eq!(s.slots(), 3);
    assert_eq!(s.keys(), &vec![Some(key(0)), Some(key(1)), Some(key(2))]);
    assert_eq!(s.active(), &vec![true, true, true]);
    assert_eq!(s.last_update(), &vec![5, 6, 7]);
    assert_eq!(p.total_stake(), 0);
    assert_eq!(p.ledger().accounts().len(), 3);
    assert_eq!(p.ledger().accounts()[1].coldkey, key(101));
}

#[test]
fn lookups_are_inverse_after_register_and_deregister() {
    let mut p = with_neurons(4, 3);
    for i in 0..3u128 {
        let uid = p.lookup_uid(3, key(i)).unwrap();
        assert_eq!(p.lookup_hotkey(3, uid), Some(key(i)));
    }
    for uid in 0..3u16 {
        let hotkey = p.lookup_hotkey(3, uid).unwrap();
        assert_eq!(p.lookup_uid(3, hotkey), Some(uid));
    }
    p.deregister(3, 1).unwrap();
    assert_eq!(p.lookup_uid(3, key(1)), None);
    assert_eq!(p.lookup_hotkey(3, 1), None);
    assert_eq!(p.lookup_uid(3, key(0)), Some(0));
    assert_eq!(p.lookup_uid(3, key(2)), Some(2));
    assert_eq!(p.lookup_hotkey(3, 2), Some(key(2)));
    assert_eq!(p.register(9, key(7), key(107), 3, true), Ok(1));
    assert_eq!(p.lookup_uid(3, key(7)), Some(1));
    assert_eq!(p.lookup_hotkey(3, 1), Some(key(7)));
}

#[test]
fn lookup_of_unknown_yields_nothing() {
    let p = with_neurons(4, 2);
    assert_eq!(p.lookup_uid(3, key(55)), None);
    assert_eq!(p.lookup_uid(4, key(0)), None);
    assert_eq!(p.lookup_hotkey(3, 2), None);
    assert_eq!(p.lookup_hotkey(3, 65535), None);
    assert_eq!(p.lookup_hotkey(4, 0), None);
}

#[test]
fn register_fails_on_missing_network() {
    let mut p = with_neurons(4, 1);
    assert_eq!(p.register(5, key(9), key(109), 8, true), Err(Error::InvalidUid));
    assert_eq!(p.ledger().accounts().len(), 1);
}

#[test]
fn register_fails_on_refused_proof() {
    let mut p = with_neurons(4, 1);
    assert_eq!(p.register(5, key(9), key(109), 3, false), Err(Error::InvalidProof));
    assert_eq!(p.network(3).unwrap().n(), 1);
    assert_eq!(p.ledger().accounts().len(), 1);
}

#[test]
fn register_fails_on_seated_hotkey() {
    let mut p = with_neurons(4, 2);
    assert_eq!(p.register(5, key(1), key(101), 3, true), Err(Error::AlreadyRegistered));
    assert_eq!(p.network(3).unwrap().n(), 2);
}

#[test]
fn register_fails_on_foreign_coldkey() {
    let mut p = with_neurons(4, 2);
    p.add_network(4).unwrap();
    assert_eq!(p.register(5, key(1), key(999), 4, true), Err(Error::NonAssociatedColdKey));
    assert_eq!(p.network(4).unwrap().n(), 0);
    assert_eq!(p.register(5, key(1), key(101), 4, true), Ok(0));
    assert_eq!(p.ledger().accounts().len(), 2);
}

#[test]
fn register_fails_where_no_slot_can_be_had() {
    let mut p = Pallet::new(config(0));
    p.add_network(3).unwrap();
    assert_eq!(p.register(5, key(0), key(100), 3, true), Err(Error::SubnetworkFull));
    assert_eq!(p.ledger().accounts().len(), 0);
}

#[test]
fn full_subnetwork_unseats_least_stake() {
    let mut p = with_neurons(3, 3);
    p.add_stake(key(100), key(0), 50, 50).unwrap();
    p.add_stake(key(101), key(1), 20, 20).unwrap();
    p.add_stake(key(102), key(2), 30, 30).unwrap();
    p.set_weights(key(0), 3, vec![1, 2], vec![1, 1]).unwrap();
    p.set_weights(key(1), 3, vec![0], vec![1]).unwrap();
    assert_eq!(p.register(8, key(9), key(109), 3, true), Ok(1));
    let s = p.network(3).unwrap();
    assert_eq!(s.n(), 3);
    assert_eq!(s.keys(), &vec![Some(key(0)), Some(key(9)), Some(key(2))]);
    assert_eq!(s.weights()[1], Vec::<(u16, u16)>::new());
    assert_eq!(s.weights()[0], vec![(2, 32767)]);
    assert_eq!(s.last_update()[1], 8);
    assert_eq!(p.lookup_uid(3, key(1)), None);
    assert_eq!(p.ledger().stake_of(key(1)), 20);
    assert_eq!(p.ledger().stake_of(key(9)), 0);
}

#[test]
fn full_subnetwork_breaks_ties_by_lowest_uid() {
    let mut p = with_neurons(3, 3);
    p.add_stake(key(100), key(0), 7, 7).unwrap();
    assert_eq!(p.register(8, key(9), key(109), 3, true), Ok(1));
    assert_eq!(p.register(8, key(10), key(110), 3, true), Ok(1));
    p.add_stake(key(110), key(10), 1, 1).unwrap();
    assert_eq!(p.register(8, key(11), key(111), 3, true), Ok(2));
}

#[test]
fn full_subnetwork_unseats_least_emission_among_equal_stake() {
    let mut c = config(2);
    c.initial_min_allowed_weights = 1;
    let mut p = Pallet::new(c);
    p.add_network(3).unwrap();
    p.sudo_set_emission_ratio(3, 65535).unwrap();
    p.register(0, key(0), key(100), 3, true).unwrap();
    p.register(0, key(1), key(101), 3, true).unwrap();
    p.add_stake(key(100), key(0), 10, 10).unwrap();
    p.set_weights(key(0), 3, vec![1], vec![5]).unwrap();
    let paid = p.run_epoch(3, 10).unwrap().unwrap().paid;
    assert!(paid[0] != paid[1]);
    let held0 = p.ledger().stake_of(key(0));
    let held1 = p.ledger().stake_of(key(1));
    p.remove_stake(key(100), key(0), held0).unwrap();
    p.remove_stake(key(101), key(1), held1).unwrap();
    let expected: u16 = if paid[0] < paid[1] { 0 } else { 1 };
    assert_eq!(p.register(11, key(9), key(109), 3, true), Ok(expected));
}

#[test]
fn deregister_clears_slot_and_purges_references() {
    let mut p = with_neurons(4, 4);
    p.set_weights(key(0), 3, vec![1, 2, 3], vec![1, 1, 1]).unwrap();
    p.set_weights(key(1), 3, vec![0, 2], vec![3, 1]).unwrap();
    p.set_weights(key(2), 3, vec![0], vec![9]).unwrap();
    p.set_weights(key(3), 3, vec![2, 1], vec![1, 1]).unwrap();
    for i in 0..4u128 {
        p.add_stake(key(100 + i), key(i), 10, 10).unwrap();
    }
    p.sudo_set_emission_ratio(3, 65535).unwrap();
    p.run_epoch(3, 10).unwrap().unwrap();
    assert!(p.network(3).unwrap().bonds().iter().any(|row| row.iter().any(|e| e.0 == 2)));
    assert_eq!(p.deregister(3, 2), Ok(()));
    let s = p.network(3).unwrap();
    assert_eq!(s.n(), 3);
    assert_eq!(s.slots(), 4);
    assert_eq!(s.keys()[2], None);
    assert!(!s.active()[2]);
    assert!(s.weights()[2].is_empty());
    assert!(s.bonds()[2].is_empty());
    assert_eq!(s.rank()[2], 0);
    assert_eq!(s.emission()[2], 0);
    for row in s.weights().iter().chain(s.bonds().iter()) {
        assert!(row.iter().all(|e| e.0 != 2));
    }
    assert_eq!(s.weights()[0], vec![(1, 21845), (3, 21845)]);
    assert_eq!(s.weights()[1], vec![(0, 49151)]);
    assert_eq!(s.weights()[3], vec![(1, 32767)]);
}

#[test]
fn deregister_fails_on_free_slot_or_missing_network() {
    let mut p = with_neurons(4, 2);
    assert_eq!(p.deregister(3, 2), Err(Error::NotRegistered));
    assert_eq!(p.deregister(9, 0), Err(Error::InvalidUid));
    p.deregister(3, 0).unwrap();
    assert_eq!(p.deregister(3, 0), Err(Error::NotRegistered));
    assert_eq!(p.network(3).unwrap().n(), 1);
}

#[test]
fn add_network_twice_fails() {
    let mut p = Pallet::new(config(4));
    assert_eq!(p.add_network(3), Ok(()));
    assert_eq!(p.add_network(3), Err(Error::NetworkExists));
    assert_eq!(p.subnets().len(), 1);
    let s = p.network(3).unwrap();
    assert_eq!(s.netuid(), 3);
    assert_eq!(s.max_n(), 4);
    assert_eq!(s.tempo(), 10);
    assert_eq!(s.emission_ratio(), 0);
    assert_eq!(s.hyper().min_allowed, 0);
    assert_eq!(s.hyper().ratio, 65535);
    assert_eq!(s.hyper().alpha, 65535);
}

#[test]
fn remove_network_drops_slots_and_keeps_accounts() {
    let mut p = with_neurons(4, 2);
    p.add_network(4).unwrap();
    assert_eq!(p.remove_network(3), Ok(()));
    assert_eq!(p.remove_network(3), Err(Error::InvalidUid));
    assert!(p.network(3).is_none());
    assert!(p.network(4).is_some());
    assert_eq!(p.ledger().accounts().len(), 2);
    assert_eq!(p.lookup_uid(3, key(0)), None);
}

#[test]
fn serve_axon_records_endpoint() {
    let mut p = with_neurons(4, 2);
    assert_eq!(p.serve_axon(key(1), 3, 0x7f00_0001, 8091, 4, 2), Ok(()));
    let m = p.neuron(3, 1).unwrap();
    assert_eq!(m.version, 3);
    assert_eq!(m.ip, 0x7f00_0001);
    assert_eq!(m.port, 8091);
    assert_eq!(m.ip_type, 4);
    assert_eq!(m.modality, 2);
    assert_eq!(m.uid, 1);
    assert_eq!(m.hotkey, key(1));
    assert_eq!(m.coldkey, key(101));
    assert_eq!(m.active, 1);
    assert_eq!(m.last_update, 5);
    assert_eq!(m.priority, 0);
    let other = p.neuron(3, 0).unwrap();
    assert_eq!(other.port, 0);
}

#[test]
fn serve_axon_fails_for_unknown_hotkey() {
    let mut p = with_neurons(4, 2);
    assert_eq!(p.serve_axon(key(9), 3, 1, 2, 4, 0), Err(Error::NotRegistered));
}

#[test]
fn neuron_gathers_the_record() {
    let mut p = with_neurons(4, 3);
    p.add_stake(key(101), key(1), 40, 40).unwrap();
    assert_eq!(p.set_weights(key(1), 3, vec![0, 2], vec![1, 3]), Ok(Event::WeightsSet(3, 1)));
    let m = p.neuron(3, 1).unwrap();
    assert_eq!(m.stake, 40);
    assert_eq!(m.weights, vec![(0u32, 16383u32), (2, 49151)]);
    assert_eq!(m.bonds, Vec::<(u32, u64)>::new());
    assert_eq!(m.rank, 0);
    assert_eq!(m.emission, 0);
    assert!(p.neuron(3, 3).is_none());
    assert!(p.neuron(9, 0).is_none());
}

#[test]
fn unseating_purges_what_named_the_uid() {
    let mut p = with_neurons(3, 3);
    p.add_stake(key(100), key(0), 1, 1).unwrap();
    p.add_stake(key(101), key(1), 1, 1).unwrap();
    p.add_stake(key(102), key(2), 5, 5).unwrap();
    p.set_weights(key(2), 3, vec![0, 1], vec![1, 1]).unwrap();
    p.set_weights(key(1), 3, vec![0], vec![1]).unwrap();
    assert_eq!(p.register(8, key(3), key(103), 3, true), Ok(0));
    let s = p.network(3).unwrap();
    assert_eq!(s.keys()[0], Some(key(3)));
    assert_eq!(s.weights()[2], vec![(1, 32767)]);
    assert!(s.weights()[1].is_empty());
    assert!(s.weights()[0].is_empty());
    assert!(s.bonds()[0].is_empty());
    for row in s.weights().iter().chain(s.bonds().iter()) {
        assert!(row.iter().all(|e| e.0 != 0));
    }
}

#[test]
fn unseating_purges_bonds_in_the_uid() {
    let mut p = with_neurons(3, 3);
    p.sudo_set_emission_ratio(3, 65535).unwrap();
    p.add_stake(key(100), key(0), 50, 50).unwrap();
    p.add_stake(key(101), key(1), 30, 30).unwrap();
    p.add_stake(key(102), key(2), 20, 20).unwrap();
    p.set_weights(key(0), 3, vec![2], vec![1]).unwrap();
    p.set_weights(key(1), 3, vec![2, 0], vec![1, 1]).unwrap();
    p.run_epoch(3, 10).unwrap().unwrap();
    assert!(p.network(3).unwrap().bonds()[0].iter().any(|e| e.0 == 2));
    let held2 = p.ledger().stake_of(key(2));
    p.remove_stake(key(102), key(2), held2).unwrap();
    assert_eq!(p.register(11, key(3), key(103), 3, true), Ok(2));
    let s = p.network(3).unwrap();
    for row in s.weights().iter().chain(s.bonds().iter()) {
        assert!(row.iter().all(|e| e.0 != 2));
    }
    assert_eq!(s.weights()[1], vec![(0, 32767)]);
    assert_eq!(s.rank()[2], 0);
    assert_eq!(s.emission()[2], 0);
}

#[test]
fn newcomer_inherits_no_rank_from_the_unseated() {
    let mut p = with_neurons(3, 3);
    p.add_stake(key(100), key(0), 50, 50).unwrap();
    p.add_stake(key(101), key(1), 30, 30).unwrap();
    p.add_stake(key(102), key(2), 20, 20).unwrap();
    p.set_weights(key(1), 3, vec![2], vec![9]).unwrap();
    assert_eq!(p.register(8, key(3), key(103), 3, true), Ok(2));
    assert!(p.network(3).unwrap().weights()[1].is_empty());
    p.run_epoch(3, 10).unwrap().unwrap();
    let s = p.network(3).unwrap();
    assert_eq!(s.rank(), &vec![0, 0, 0]);
    assert_eq!(s.incentive(), &vec![0, 0, 0]);
}

#[test]
fn claim_of_a_free_slot_leaves_rows_alone() {
    let mut p = with_neurons(4, 3);
    p.set_weights(key(0), 3, vec![1, 2], vec![1, 1]).unwrap();
    assert_eq!(p.register(8, key(3), key(103), 3, true), Ok(3));
    assert_eq!(p.network(3).unwrap().weights()[0], vec![(1, 32767), (2, 32767)]);
    assert_eq!(p.network(3).unwrap().n(), 4);
}

#[test]
fn serve_axon_fails_once_the_hotkey_is_unseated() {
    let mut p = with_neurons(4, 2);
    assert_eq!(p.serve_axon(key(1), 1, 10, 20, 4, 0), Ok(()));
    assert!(p.is_registered(key(1)));
    p.deregister(3, 1).unwrap();
    assert_eq!(p.lookup_uid(3, key(1)), None);
    assert!(!p.is_registered(key(1)));
    assert_eq!(p.serve_axon(key(1), 2, 11, 21, 6, 1), Err(Error::NotRegistered));
    assert_eq!(p.ledger().accounts()[1].axon.version, 1);
    assert_eq!(p.ledger().accounts()[1].axon.port, 20);
    p.add_network(4).unwrap();
    p.register(9, key(1), key(101), 4, true).unwrap();
    assert_eq!(p.serve_axon(key(1), 2, 11, 21, 6, 1), Ok(()));
    assert_eq!(p.ledger().accounts()[1].axon.version, 2);
}

#[test]
fn serve_axon_fails_for_the_unseated_of_a_full_subnetwork() {
    let mut p = with_neurons(2, 2);
    p.add_stake(key(100), key(0), 5, 5).unwrap();
    assert_eq!(p.register(8, key(3), key(103), 3, true), Ok(1));
    assert_eq!(p.serve_axon(key(1), 2, 11, 21, 6, 1), Err(Error::NotRegistered));
    assert_eq!(p.serve_axon(key(3), 2, 11, 21, 6, 1), Ok(()));
}
