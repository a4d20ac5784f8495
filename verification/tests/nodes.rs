//! The agent-per-device worker logic, driven message by message in one
//! process: writes with incremental parity, reads, the pending-parity
//! race, and cooperative recovery.

use raid::galois;
use raid::matrix::Matrix;
use raid::raid::distributed::{Action, Msg, Node, RecoverMsg};
use raid::raid::RAID;

const D: usize = 3;
const C: usize = 2;
const X: usize = 2;
const N: usize = D + C;

fn make_nodes() -> Vec<Node> {
    let tables = galois::gf_build_tables().unwrap();
    let reed = Matrix::reed_solomon(&tables, C, D).unwrap();
    let mut nodes = Vec::new();
    for i in 0..N {
        nodes.push(Node::new(i, D, C, X, tables.clone(), reed.clone()));
    }
    nodes
}

/// Deliver control-mailbox sends until none are left; collect everything
/// else.
fn route(nodes: &mut Vec<Node>, start: Vec<Action>) -> Vec<Action> {
    let mut queue = start;
    let mut out = Vec::new();
    while let Some(a) = queue.pop() {
        match a {
            Action::Send { dev_idx, msg } => {
                let more = nodes[dev_idx].handle_msg(msg);
                queue.extend(more);
            }
            other => out.push(other),
        }
    }
    out
}

fn write_slice(nodes: &mut Vec<Node>, s: usize, data: &[Vec<u8>]) {
    for (i, ch) in data.iter().enumerate() {
        let dev = (i + s) % N;
        let acts = nodes[dev].handle_msg(Msg::NewData {
            data_slice: s,
            data: ch.clone(),
        });
        let rest = route(nodes, acts);
        assert!(rest.is_empty());
    }
}

fn read_chunk(nodes: &mut Vec<Node>, s: usize, i: usize) -> Vec<u8> {
    let dev = (i + s) % N;
    let acts = nodes[dev].handle_msg(Msg::HeadNodeDataRequest { data_slice: s });
    assert_eq!(acts.len(), 1);
    match acts.into_iter().next().unwrap() {
        Action::Reply { msg } => {
            assert_eq!(msg.data_slice, s);
            msg.data
        }
        _ => panic!("expected a reply"),
    }
}

#[test]
fn write_and_read_through_messages() {
    let mut nodes = make_nodes();
    let data = vec![vec![1, 2], vec![3, 4], vec![5, 6]];
    write_slice(&mut nodes, 0, &data);
    for i in 0..D {
        assert_eq!(read_chunk(&mut nodes, 0, i), data[i]);
    }
}

#[test]
fn update_reaches_parity_and_recovery_works() {
    let mut nodes = make_nodes();
    let data = vec![vec![1, 2], vec![3, 4], vec![5, 6]];
    write_slice(&mut nodes, 0, &data);
    // overwrite one chunk through the message protocol
    let acts = nodes[1].handle_msg(Msg::UpdateData {
        data_slice: 0,
        data: vec![9, 9],
    });
    let rest = route(&mut nodes, acts);
    assert!(rest.is_empty());
    assert_eq!(read_chunk(&mut nodes, 0, 1), vec![9, 9]);

    // destroy device 1 and run the cooperative recovery for slice 0
    let acts = nodes[1].handle_msg(Msg::DestroyStorage { max_data_slice: 0 });
    assert!(matches!(acts[0], Action::StartRecover { max_data_slice: 0 }));
    let reqs = nodes[1].recover_requests(0);
    assert_eq!(reqs.len(), N - 1);
    let mut replies: Vec<RecoverMsg> = Vec::new();
    for r in reqs {
        match r {
            Action::Send { dev_idx, msg } => {
                let answers = nodes[dev_idx].handle_msg(msg);
                for a in answers {
                    match a {
                        Action::SendRecover { dev_idx: target, msg } => {
                            assert_eq!(target, 1);
                            if replies.len() < D {
                                replies.push(msg);
                            }
                        }
                        _ => panic!("expected a recovery reply"),
                    }
                }
            }
            _ => panic!("expected a send"),
        }
    }
    assert_eq!(replies.len(), D);
    nodes[1].recover_slice(0, &replies).unwrap();
    assert_eq!(read_chunk(&mut nodes, 0, 1), vec![9, 9]);
    assert_eq!(read_chunk(&mut nodes, 0, 0), vec![1, 2]);
}

#[test]
fn pending_parity_queues_recover_requests() {
    let mut nodes = make_nodes();
    // deliver only two of the three data chunks to the parity device for
    // position D of slice 0 (device D)
    let data = vec![vec![1, 2], vec![3, 4], vec![5, 6]];
    for i in 0..2 {
        let acts = nodes[D].handle_msg(Msg::NewDataChecksum {
            data_slice: 0,
            data: data[i].clone(),
            dev_idx: i,
        });
        assert!(acts.is_empty());
    }
    // a recovering peer asks while the parity is still pending: queued
    let acts = nodes[D].handle_msg(Msg::NeedRecover {
        data_slice: 0,
        dev_idx: 4,
    });
    assert!(acts.is_empty());
    // the last data chunk arrives: the finished parity is flushed to the
    // queued peer
    let acts = nodes[D].handle_msg(Msg::NewDataChecksum {
        data_slice: 0,
        data: data[2].clone(),
        dev_idx: 2,
    });
    assert_eq!(acts.len(), 1);
    match &acts[0] {
        Action::SendRecover {
            dev_idx,
            msg: RecoverMsg::RequestedData { data_slice, data: ch, dev_idx: from },
        } => {
            assert_eq!(*dev_idx, 4);
            assert_eq!(*data_slice, 0);
            assert_eq!(*from, D);
            // the flushed chunk is the committed parity chunk
            let now = nodes[D].read_chunk(0);
            assert_eq!(*ch, now);
        }
        _ => panic!("expected the queued peer to be answered"),
    }
}

#[test]
fn ping_and_shutdown_answer() {
    let mut nodes = make_nodes();
    let acts = nodes[0].handle_msg(Msg::Ping);
    assert!(matches!(acts[0], Action::Pong));
    let acts = nodes[0].handle_msg(Msg::Shutdown);
    assert!(matches!(acts[0], Action::Stop));
}

#[test]
fn parity_aggregation_is_order_free() {
    // two fresh parity workers receive the same three contributions in
    // opposite orders and commit the same parity chunk
    let mut a = make_nodes();
    let mut b = make_nodes();
    let data = vec![vec![1, 2], vec![30, 40], vec![50, 60]];
    for i in 0..D {
        let acts = a[D].handle_msg(Msg::NewDataChecksum {
            data_slice: 0,
            data: data[i].clone(),
            dev_idx: i,
        });
        assert!(acts.is_empty());
    }
    for i in (0..D).rev() {
        let acts = b[D].handle_msg(Msg::NewDataChecksum {
            data_slice: 0,
            data: data[i].clone(),
            dev_idx: i,
        });
        assert!(acts.is_empty());
    }
    assert_eq!(a[D].read_chunk(0), b[D].read_chunk(0));
    // and the committed chunk is the engine's parity for the same slice
    let mut e = raid::raid::controller::Controller::new(D, C, X).unwrap();
    e.add_data(&data, 0);
    assert_eq!(a[D].read_chunk(0), e.read_checksum_at(0, 0));
}
