//! The appending single-process engine.

use raid::single::SingleServer;
use raid::Error;

#[test]
fn append_returns_slice_numbers() {
    let mut e = SingleServer::new(2, 1, 2).unwrap();
    let s0 = e.add_data(&vec![vec![1, 2], vec![3, 4]]);
    let s1 = e.add_data(&vec![vec![5, 6], vec![7, 8]]);
    assert_eq!(s0, 0);
    assert_eq!(s1, 1);
    assert_eq!(e.read_data(0).unwrap(), vec![vec![1, 2], vec![3, 4]]);
    assert_eq!(e.read_data(1).unwrap(), vec![vec![5, 6], vec![7, 8]]);
    assert_eq!(e.read_data_at(1, 0).unwrap(), vec![5, 6]);
}

#[test]
fn append_update_destroy() {
    let mut e = SingleServer::new(2, 2, 3).unwrap();
    e.add_data(&vec![vec![1, 1, 1], vec![2, 2, 2]]);
    e.update_data(&vec![8, 8, 8], 0, 1);
    e.destroy_devices(&vec![0, 2]).unwrap();
    assert_eq!(e.read_data(0).unwrap(), vec![vec![1, 1, 1], vec![8, 8, 8]]);
    // removing one device and rebuilding it by hand works too
    e.remove_device(3);
    e.construct_missing_devices().unwrap();
    assert_eq!(e.read_data(0).unwrap(), vec![vec![1, 1, 1], vec![8, 8, 8]]);
}

#[test]
fn checksum_count_matches_parity_devices() {
    let mut e = SingleServer::new(3, 2, 2).unwrap();
    e.add_data(&vec![vec![1, 2], vec![3, 4], vec![5, 6]]);
    let sums = e.read_checksum(0);
    assert_eq!(sums.len(), 2);
    assert_eq!(sums[0], e.read_checksum_at(0, 0));
    assert_eq!(sums[1], e.read_checksum_at(0, 1));
}

#[test]
fn single_server_reports_out_of_range() {
    let e = SingleServer::new(2, 1, 2).unwrap();
    assert!(matches!(e.read_data(3), Err(Error::OutOfRange)));
}
