//! The single-process engine: round trips, parity maintenance, device
//! loss and recovery.

use raid::raid::controller::Controller;
use raid::raid::RAID;
use raid::Error;

fn slice_3x2() -> Vec<Vec<u8>> {
    vec![vec![0, 1], vec![2, 3], vec![4, 5]]
}

#[test]
fn round_trip_one_slice() {
    // three data chunks of two bytes across five devices
    let mut e = Controller::new(3, 2, 2).unwrap();
    e.add_data(&slice_3x2(), 0);
    let back = e.read_data(0).unwrap();
    assert_eq!(back, slice_3x2());
    assert_eq!(e.read_data_at(0, 1).unwrap(), vec![2, 3]);
}

#[test]
fn destroy_pairs_and_reread() {
    let mut e = Controller::new(3, 2, 2).unwrap();
    e.add_data(&slice_3x2(), 0);
    for pair in [[0usize, 1], [2, 3], [4, 0]] {
        e.destroy_devices(&pair.to_vec()).unwrap();
        assert_eq!(e.read_data(0).unwrap(), slice_3x2());
    }
}

#[test]
fn update_then_destroy_and_reread() {
    let mut e = Controller::new(3, 2, 2).unwrap();
    e.add_data(&slice_3x2(), 0);
    e.update_data(&vec![9, 9], 0, 0);
    let want = vec![vec![9, 9], vec![2, 3], vec![4, 5]];
    assert_eq!(e.read_data(0).unwrap(), want);
    e.destroy_devices(&vec![0, 1]).unwrap();
    assert_eq!(e.read_data(0).unwrap(), want);
}

#[test]
fn chunk_by_chunk_fill() {
    let mut e = Controller::new(3, 2, 2).unwrap();
    e.add_data_at(&vec![10, 11], 0, 0);
    e.add_data_at(&vec![12, 13], 0, 1);
    e.add_data_at(&vec![14, 15], 0, 2);
    assert_eq!(
        e.read_data(0).unwrap(),
        vec![vec![10, 11], vec![12, 13], vec![14, 15]]
    );
    e.destroy_devices(&vec![1, 3]).unwrap();
    assert_eq!(
        e.read_data(0).unwrap(),
        vec![vec![10, 11], vec![12, 13], vec![14, 15]]
    );
}

#[test]
fn unwritten_positions_read_as_zeroes() {
    let mut e = Controller::new(3, 2, 4).unwrap();
    e.add_data_at(&vec![1, 2, 3, 4], 0, 1);
    assert_eq!(e.read_data_at(0, 0).unwrap(), vec![0, 0, 0, 0]);
    assert_eq!(e.read_data_at(0, 1).unwrap(), vec![1, 2, 3, 4]);
    e.destroy_devices(&vec![2]).unwrap();
    assert_eq!(e.read_data_at(0, 1).unwrap(), vec![1, 2, 3, 4]);
}

#[test]
fn read_past_highest_slice_is_out_of_range() {
    let mut e = Controller::new(3, 2, 2).unwrap();
    match e.read_data_at(5, 0) {
        Err(Error::OutOfRange) => {}
        other => panic!("expected OutOfRange, got {:?}", other.map(|_| ())),
    }
    e.add_data(&slice_3x2(), 0);
    assert!(e.read_data_at(0, 0).is_ok());
    assert!(matches!(e.read_data(7), Err(Error::OutOfRange)));
}

#[test]
fn too_many_lost_is_reported() {
    let mut e = Controller::new(3, 2, 2).unwrap();
    e.add_data(&slice_3x2(), 0);
    match e.destroy_devices(&vec![0, 1, 2]) {
        Err(Error::TooManyLost) => {}
        other => panic!("expected TooManyLost, got {:?}", other),
    }
}

#[test]
fn parity_changes_with_updates() {
    // the parity chunks must track the data: an update that changes the
    // data must change some parity byte, and updating back restores it
    let mut e = Controller::new(2, 1, 2).unwrap();
    e.add_data(&vec![vec![1, 2], vec![3, 4]], 0);
    let before = e.read_checksum(0);
    e.update_data(&vec![5, 6], 0, 0);
    let changed = e.read_checksum(0);
    assert_ne!(before, changed);
    e.update_data(&vec![1, 2], 0, 0);
    let back = e.read_checksum(0);
    assert_eq!(before, back);
}

#[test]
fn several_slices_survive_loss() {
    let mut e = Controller::new(3, 2, 3).unwrap();
    let mut slices: Vec<Vec<Vec<u8>>> = Vec::new();
    for s in 0..4usize {
        let data: Vec<Vec<u8>> = (0..3u8)
            .map(|i| vec![s as u8, i, s as u8 ^ i])
            .collect();
        e.add_data(&data, s);
        slices.push(data);
    }
    e.destroy_devices(&vec![4, 2]).unwrap();
    for s in 0..4usize {
        assert_eq!(e.read_data(s).unwrap(), slices[s]);
    }
    // recovery on a whole engine changes nothing
    e.destroy_devices(&Vec::new()).unwrap();
    for s in 0..4usize {
        assert_eq!(e.read_data(s).unwrap(), slices[s]);
    }
}

#[test]
fn wide_configuration_survives_triple_loss() {
    // ten data and three parity chunks of sixteen bytes
    let mut e = Controller::new(10, 3, 16).unwrap();
    let mut slices: Vec<Vec<Vec<u8>>> = Vec::new();
    for s in 0..3usize {
        let data: Vec<Vec<u8>> = (0..10u8)
            .map(|i| (0..16u8).map(|p| i.wrapping_mul(31) ^ p ^ s as u8).collect())
            .collect();
        e.add_data(&data, s);
        slices.push(data);
    }
    e.destroy_devices(&vec![0, 5, 12]).unwrap();
    for s in 0..3usize {
        assert_eq!(e.read_data(s).unwrap(), slices[s]);
    }
}

#[test]
fn every_data_parity_pair_recovers() {
    // destroy one data and one parity device, for every such pair
    let data = vec![vec![11, 22], vec![33, 44], vec![55, 66]];
    for dev_data in 0..3usize {
        for dev_parity in 3..5usize {
            let mut e = Controller::new(3, 2, 2).unwrap();
            e.add_data(&data, 0);
            e.destroy_devices(&vec![dev_data, dev_parity]).unwrap();
            assert_eq!(e.read_data(0).unwrap(), data);
        }
    }
}

#[test]
fn no_parity_means_no_loss_tolerance() {
    // a configuration without parity chunks still stores and reads, but
    // cannot lose any device
    let mut e = Controller::new(2, 0, 2).unwrap();
    e.add_data(&vec![vec![1, 2], vec![3, 4]], 0);
    assert_eq!(e.read_data(0).unwrap(), vec![vec![1, 2], vec![3, 4]]);
    e.destroy_devices(&Vec::new()).unwrap();
    assert_eq!(e.read_data(0).unwrap(), vec![vec![1, 2], vec![3, 4]]);
    assert!(matches!(e.destroy_devices(&vec![0]), Err(Error::TooManyLost)));
}

#[test]
fn sparse_slice_numbers_are_allowed() {
    // writing slice five first leaves the gap slices reading as zeroes,
    // and recovery still works across the gap
    let mut e = Controller::new(2, 1, 2).unwrap();
    e.add_data(&vec![vec![1, 2], vec![3, 4]], 5);
    assert_eq!(e.read_data(5).unwrap(), vec![vec![1, 2], vec![3, 4]]);
    assert_eq!(e.read_data(2).unwrap(), vec![vec![0, 0], vec![0, 0]]);
    e.destroy_devices(&vec![1]).unwrap();
    assert_eq!(e.read_data(5).unwrap(), vec![vec![1, 2], vec![3, 4]]);
    assert_eq!(e.read_data(3).unwrap(), vec![vec![0, 0], vec![0, 0]]);
}
