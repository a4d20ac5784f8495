//! The file mapper on top of the single-process engine.

use raid::file::FileHandler;
use raid::raid::controller::Controller;

#[test]
fn partial_chunk_tail_reads_back_exactly() {
    // a file one chunk plus three bytes long comes back byte for byte
    let mut h: FileHandler<Controller> = FileHandler::new(3, 2, 4).unwrap();
    let content: Vec<u8> = vec![1, 2, 3, 4, 5, 6, 7];
    h.add_file(String::from("tail"), &content);
    assert_eq!(h.read_file("tail"), content);
}

#[test]
fn several_files_round_trip() {
    let mut h: FileHandler<Controller> = FileHandler::new(3, 2, 4).unwrap();
    let a: Vec<u8> = (0..10u8).collect();
    let b: Vec<u8> = (50..75u8).collect();
    let c: Vec<u8> = vec![255];
    h.add_file(String::from("a"), &a);
    h.add_file(String::from("b"), &b);
    h.add_file(String::from("c"), &c);
    assert_eq!(h.read_file("a"), a);
    assert_eq!(h.read_file("b"), b);
    assert_eq!(h.read_file("c"), c);
}

#[test]
fn files_survive_device_loss() {
    let mut h: FileHandler<Controller> = FileHandler::new(3, 2, 4).unwrap();
    let a: Vec<u8> = (0..33u8).collect();
    let b: Vec<u8> = (100..140u8).collect();
    h.add_file(String::from("a"), &a);
    h.add_file(String::from("b"), &b);
    h.destroy_devices(&vec![0, 3]).unwrap();
    assert_eq!(h.read_file("a"), a);
    assert_eq!(h.read_file("b"), b);
    h.destroy_devices(&vec![2]).unwrap();
    assert_eq!(h.read_file("a"), a);
    assert_eq!(h.read_file("b"), b);
}

#[test]
fn update_overlays_bytes_in_place() {
    let mut h: FileHandler<Controller> = FileHandler::new(3, 2, 4).unwrap();
    let content: Vec<u8> = (0..20u8).collect();
    h.add_file(String::from("f"), &content);
    // overlay five bytes across a chunk boundary
    h.update_file("f", &vec![90, 91, 92, 93, 94], 6);
    let mut want = content.clone();
    want[6..11].copy_from_slice(&[90, 91, 92, 93, 94]);
    assert_eq!(h.read_file("f"), want);
    // the other file is untouched
    let other: Vec<u8> = vec![7, 7, 7];
    h.add_file(String::from("g"), &other);
    h.update_file("f", &vec![1], 0);
    want[0] = 1;
    assert_eq!(h.read_file("f"), want);
    assert_eq!(h.read_file("g"), other);
}

#[test]
fn update_then_destroy_keeps_files() {
    let mut h: FileHandler<Controller> = FileHandler::new(3, 2, 4).unwrap();
    let content: Vec<u8> = (0..17u8).collect();
    h.add_file(String::from("f"), &content);
    h.update_file("f", &vec![200, 201], 15);
    let mut want = content.clone();
    want[15] = 200;
    want[16] = 201;
    h.destroy_devices(&vec![1, 4]).unwrap();
    assert_eq!(h.read_file("f"), want);
}

#[test]
fn replacing_a_file_keeps_the_rest() {
    let mut h: FileHandler<Controller> = FileHandler::new(2, 1, 4).unwrap();
    let a1: Vec<u8> = vec![1, 2, 3];
    let a2: Vec<u8> = (10..30u8).collect();
    let b: Vec<u8> = vec![9, 8, 7, 6, 5];
    h.add_file(String::from("a"), &a1);
    h.add_file(String::from("b"), &b);
    h.add_file(String::from("a"), &a2);
    assert_eq!(h.read_file("a"), a2);
    assert_eq!(h.read_file("b"), b);
}

#[test]
fn empty_file_reads_back_empty() {
    let mut h: FileHandler<Controller> = FileHandler::new(3, 1, 4).unwrap();
    h.add_file(String::from("void"), &Vec::new());
    assert_eq!(h.read_file("void"), Vec::<u8>::new());
}

#[test]
fn update_can_rewrite_a_whole_file() {
    let mut h: FileHandler<Controller> = FileHandler::new(2, 1, 4).unwrap();
    let content: Vec<u8> = (0..9u8).collect();
    h.add_file(String::from("f"), &content);
    let replacement: Vec<u8> = (40..49u8).collect();
    h.update_file("f", &replacement, 0);
    assert_eq!(h.read_file("f"), replacement);
    h.update_file("f", &vec![0], 8);
    let mut want = replacement.clone();
    want[8] = 0;
    assert_eq!(h.read_file("f"), want);
}
