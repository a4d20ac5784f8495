//! The agent-per-device engine's worker logic.
//!
//! Each device runs as an autonomous worker that owns one chunk slot per
//! slice and a pending-parity table.  Workers communicate only by message
//! passing; this module holds the verified decision core of a worker: for
//! every inbound message, the state change and the outbound messages it
//! demands.  The mailbox plumbing that carries the messages lives outside
//! the verified library.

pub use crate::Error;

use vstd::prelude::*;

verus! {

use crate::galois::{GfTables, gf_add, gf_mul};
use crate::matrix::{
    Matrix, col, copy_row, dot, dot_from, grid, grid_wf, good_sol, lemma_dot_unit, solves,
    unit_row, row_xor_scale, scale_seq, xor_seq, zero_chunk,
};
use crate::raid::{device_for, device_for_exec, zero_seq};
use crate::raid::controller::{distinct_below, mds_matrix, recovery_rows};

/// A chunk handed back to the head node for a read request.
pub struct CheckpointMsg {
    pub data_slice: usize,
    pub data: Vec<u8>,
}

/// A chunk handed to a recovering peer.
pub enum RecoverMsg {
    RequestedData { data_slice: usize, data: Vec<u8>, dev_idx: usize },
}

/// The message vocabulary of the agent engine.
pub enum Msg {
    /// A new data chunk for a slice written as a whole.
    NewData { data_slice: usize, data: Vec<u8> },
    /// A new data chunk for a slice filled one position at a time.
    NewDataAt { data_slice: usize, data: Vec<u8> },
    /// A data chunk to aggregate into a pending parity chunk.
    NewDataChecksum { data_slice: usize, data: Vec<u8>, dev_idx: usize },
    /// A data chunk to fold into the parity chunk on disk.
    NewDataChecksumAt { data_slice: usize, data: Vec<u8>, dev_idx: usize },
    /// Overwrite a data chunk.
    UpdateData { data_slice: usize, data: Vec<u8> },
    /// Fold a data-chunk difference into a parity chunk.
    UpdateDataChecksum { data_slice: usize, diff: Vec<u8>, dev_idx: usize },
    /// A recovering peer asks for this device's chunk of a slice.
    NeedRecover { data_slice: usize, dev_idx: usize },
    /// The head node asks for this device's data chunk of a slice.
    HeadNodeDataRequest { data_slice: usize },
    /// Erase this device's storage and recover it from the peers.
    DestroyStorage { max_data_slice: usize },
    /// Observe that every earlier message has been processed.
    Ping,
    /// Leave the worker loop.
    Shutdown,
}

/// What a worker asks its surroundings to do after handling a message.
pub enum Action {
    /// Send a control message to a peer.
    Send { dev_idx: usize, msg: Msg },
    /// Send a recovery reply to a peer.
    SendRecover { dev_idx: usize, msg: RecoverMsg },
    /// Answer the head node's read request.
    Reply { msg: CheckpointMsg },
    /// Answer a ping.
    Pong,
    /// Erase local storage, then run the recovery protocol for the slices
    /// up to and including `max_data_slice`.
    StartRecover { max_data_slice: usize },
    /// Leave the worker loop.
    Stop,
}

/// A parity chunk being aggregated: how many data chunks have arrived,
/// their combined contribution, and the peers whose recovery requests
/// wait for the finished chunk.
pub struct PendingParity {
    pub count: usize,
    pub current_checksum: Vec<u8>,
    pub missed_recover_dev_idx: Vec<usize>,
}

/// `a` sends the data chunk `ch` of slice `s` from device `me` to parity
/// device `target`, with the chunk-by-chunk variant iff `at_variant`.
pub open spec fn checksum_send_ok(
    a: Action,
    target: int,
    s: usize,
    ch: Seq<u8>,
    me: usize,
    at_variant: bool,
) -> bool {
    a matches Action::Send { dev_idx: dv, msg: m } && dv == target && (if at_variant {
        m matches Msg::NewDataChecksumAt { data_slice: s2, data: c2, dev_idx: f } && s2 == s && c2@
            == ch && f == me
    } else {
        m matches Msg::NewDataChecksum { data_slice: s2, data: c2, dev_idx: f } && s2 == s && c2@
            == ch && f == me
    })
}

/// `a` sends the data difference `df` of slice `s` from device `me` to
/// parity device `target`.
pub open spec fn update_send_ok(a: Action, target: int, s: usize, df: Seq<u8>, me: usize) -> bool {
    a matches Action::Send { dev_idx: dv, msg: m } && dv == target && (m matches Msg::UpdateDataChecksum {
        data_slice: s2,
        diff: d2,
        dev_idx: f,
    } && s2 == s && d2@ == df && f == me)
}

/// `a` asks a peer (never `me` itself) for its chunk of slice `s`.
pub open spec fn need_recover_send_ok(a: Action, s: usize, me: usize, n: int) -> bool {
    a matches Action::Send { dev_idx: dv, msg: Msg::NeedRecover { data_slice: s2, dev_idx: f } }
        && dv != me && dv < n && s2 == s && f == me
}

/// `a` hands the chunk `ch` of slice `s` from device `me` to the
/// recovering peer `target`.
pub open spec fn recover_send_ok(a: Action, target: int, s: usize, ch: Seq<u8>, me: usize) -> bool {
    a matches Action::SendRecover {
        dev_idx: dv,
        msg: RecoverMsg::RequestedData { data_slice: s2, data: c2, dev_idx: f },
    } && dv == target && s2 == s && c2@ == ch && f == me
}

/// The in-slice position of device `dev` for slice `s` among `n` devices:
/// the inverse of the placement rotation.
pub open spec fn pos_for(n: int, s: int, dev: int) -> int {
    (dev - s) % n
}

/// The placement and its inverse cancel.
pub proof fn lemma_pos_for(n: int, s: int, dev: int)
    requires
        n >= 1,
        s >= 0,
        0 <= dev < n,
    ensures
        0 <= pos_for(n, s, dev) < n,
        device_for(n, s, pos_for(n, s, dev)) == dev,
{
    vstd::arithmetic::div_mod::lemma_mod_division_less_than_divisor(dev - s, n);
    vstd::arithmetic::div_mod::lemma_add_mod_noop(dev - s, s, n);
    vstd::arithmetic::div_mod::lemma_mod_twice(dev - s, n);
    assert(((dev - s) % n + s % n) % n == (dev - s + s) % n);
    assert(((dev - s) % n + s) % n == ((dev - s) % n + s % n) % n) by {
        vstd::arithmetic::div_mod::lemma_add_mod_noop_right((dev - s) % n, s, n);
    }
    vstd::arithmetic::div_mod::lemma_small_mod(dev as nat, n as nat);
}

/// Compute the in-slice position of device `dev` for slice `s`.
pub fn pos_for_exec(n: usize, s: usize, dev: usize) -> (r: usize)
    requires
        1 <= n <= 256,
        dev < n,
    ensures
        r == pos_for(n as int, s as int, dev as int),
        r < n,
{
    proof {
        let ni = n as int;
        let si = s as int;
        let di = dev as int;
        vstd::arithmetic::div_mod::lemma_mod_division_less_than_divisor(si, ni);
        vstd::arithmetic::div_mod::lemma_sub_mod_noop(di + ni, si, ni);
        vstd::arithmetic::div_mod::lemma_mod_multiples_vanish(1, di, ni);
        vstd::arithmetic::div_mod::lemma_small_mod(dev as nat, n as nat);
        vstd::arithmetic::div_mod::lemma_mod_twice(di - si, ni);
        assert((di % ni - si % ni) % ni == (di - si) % ni) by {
            vstd::arithmetic::div_mod::lemma_sub_mod_noop(di, si, ni);
        }
        assert(((di + ni) % ni - si % ni) % ni == (di + ni - si) % ni) by {
            vstd::arithmetic::div_mod::lemma_sub_mod_noop(di + ni, si, ni);
        }
        vstd::arithmetic::div_mod::lemma_mod_multiples_vanish(1, di - si, ni);
        assert((di + ni - si) % ni == (di - si) % ni);
        vstd::arithmetic::div_mod::lemma_mod_division_less_than_divisor(di + ni - (si % ni), ni);
        assert(dev + n - s % n == di + ni - si % ni);
        assert((di + ni - si % ni) % ni == (di - si) % ni) by {
            vstd::arithmetic::div_mod::lemma_sub_mod_noop_right(di + ni, si, ni);
            vstd::arithmetic::div_mod::lemma_mod_multiples_vanish(1, di - si % ni, ni);
            vstd::arithmetic::div_mod::lemma_sub_mod_noop_right(di, si, ni);
        }
    }
    (dev + n - s % n) % n
}

/// The obligations a message must meet to be handled: chunk sizes match,
/// the target role fits the slice, and senders are devices.
pub open spec fn msg_wf(msg: Msg, node: Node) -> bool {
    match msg {
        Msg::NewData { data_slice, data } => node.is_data_node(data_slice as int) && data@.len()
            == node.x && data_slice + 1 <= usize::MAX,
        Msg::NewDataAt { data_slice, data } => node.is_data_node(data_slice as int) && data@.len()
            == node.x && data_slice + 1 <= usize::MAX,
        Msg::UpdateData { data_slice, data } => node.is_data_node(data_slice as int) && data@.len()
            == node.x && data_slice + 1 <= usize::MAX,
        Msg::NewDataChecksum { data_slice, data, dev_idx } => !node.is_data_node(data_slice as int)
            && (dev_idx as int) < node.n() && pos_for(node.n(), data_slice as int, dev_idx as int)
            < node.d && data@.len() == node.x && data_slice + 1 <= usize::MAX,
        Msg::NewDataChecksumAt { data_slice, data, dev_idx } => !node.is_data_node(
            data_slice as int,
        ) && !node.has_pending(data_slice as int) && (dev_idx as int) < node.n() && pos_for(
            node.n(),
            data_slice as int,
            dev_idx as int,
        ) < node.d && data@.len() == node.x && data_slice + 1 <= usize::MAX,
        Msg::UpdateDataChecksum { data_slice, diff, dev_idx } => !node.is_data_node(
            data_slice as int,
        ) && (dev_idx as int) < node.n() && pos_for(node.n(), data_slice as int, dev_idx as int)
            < node.d && diff@.len() == node.x && data_slice + 1 <= usize::MAX,
        Msg::NeedRecover { data_slice, dev_idx } => data_slice + 1 <= usize::MAX,
        Msg::HeadNodeDataRequest { data_slice } => true,
        Msg::DestroyStorage { max_data_slice } => true,
        Msg::Ping => true,
        Msg::Shutdown => true,
    }
}

/// A recovery reply for slice `s` with a chunk of `x` bytes from one of
/// the `n` devices.
pub open spec fn reply_shape_ok(r: RecoverMsg, s: usize, x: int, n: int) -> bool {
    r matches RecoverMsg::RequestedData { data_slice: s2, data: ch, dev_idx: f } && s2 == s && ch@.len()
        == x && (f as int) < n
}

/// Parity row `kk` of the code applied to the data row `sol`.
pub open spec fn parity_of(node: Node, kk: int, sol: Seq<Seq<u8>>) -> Seq<u8> {
    Seq::new(node.x as nat, |p: int| dot(node.tables, node.vandermonde.m()[kk], col(sol, p)))
}

/// A recovery reply carries what the data row `sol` demands: a data
/// position's chunk of `sol`, or a parity position's parity of `sol`.
pub open spec fn reply_consistent(node: Node, s: usize, r: RecoverMsg, sol: Seq<Seq<u8>>) -> bool {
    r matches RecoverMsg::RequestedData { data_slice: s2, data: ch, dev_idx: f } ==> (s2 == s
        ==> {
        let pos = pos_for(node.n(), s as int, f as int);
        &&& (pos < node.d ==> ch@ == sol[pos])
        &&& (pos >= node.d ==> ch@ == parity_of(node, pos - node.d, sol))
    })
}

/// Every reply in the collection is consistent with the data row `sol`.
pub open spec fn replies_consistent(
    node: Node,
    s: usize,
    rs: Seq<RecoverMsg>,
    sol: Seq<Seq<u8>>,
) -> bool {
    forall|q: int| 0 <= q < rs.len() ==> reply_consistent(node, s, #[trigger] rs[q], sol)
}


/// A dot product restricted to the positions a mask selects.
spec fn masked_dot_from(t: GfTables, row: Seq<u8>, vals: Seq<u8>, mask: Seq<bool>, lo: nat) -> u8
    decreases row.len() - lo,
{
    if lo >= row.len() {
        0
    } else {
        gf_add(
            if mask[lo as int] {
                gf_mul(t, row[lo as int], vals[lo as int])
            } else {
                0
            },
            masked_dot_from(t, row, vals, mask, lo + 1),
        )
    }
}

/// A fully selected masked dot product is the dot product.
proof fn lemma_masked_dot_full(t: GfTables, row: Seq<u8>, vals: Seq<u8>, mask: Seq<bool>, lo: nat)
    requires
        forall|j: int| 0 <= j < row.len() ==> #[trigger] mask[j],
    ensures
        masked_dot_from(t, row, vals, mask, lo) == dot_from(t, row, vals, lo),
    decreases row.len() - lo,
{
    if lo < row.len() {
        lemma_masked_dot_full(t, row, vals, mask, lo + 1);
    }
}

/// Selecting one more position adds that position's summand.
proof fn lemma_masked_dot_update(
    t: GfTables,
    row: Seq<u8>,
    vals: Seq<u8>,
    mask: Seq<bool>,
    i: int,
    lo: nat,
)
    requires
        0 <= i < row.len(),
        mask.len() == row.len(),
        !mask[i],
    ensures
        masked_dot_from(t, row, vals, mask.update(i, true), lo) == if lo <= i {
            gf_add(masked_dot_from(t, row, vals, mask, lo), gf_mul(t, row[i], vals[i]))
        } else {
            masked_dot_from(t, row, vals, mask, lo)
        },
    decreases row.len() - lo,
{
    let m2 = mask.update(i, true);
    if lo >= row.len() {
    } else {
        lemma_masked_dot_update(t, row, vals, mask, i, lo + 1);
        let h_old: u8 = if mask[lo as int] {
            gf_mul(t, row[lo as int], vals[lo as int])
        } else {
            0
        };
        let t_old = masked_dot_from(t, row, vals, mask, lo + 1);
        let g = gf_mul(t, row[i], vals[i]);
        if lo as int == i {
            assert(m2[lo as int]);
            assert(((g ^ t_old)) == ((0u8 ^ t_old) ^ g)) by (bit_vector);
        } else if lo < i {
            assert(m2[lo as int] == mask[lo as int]);
            assert(((h_old ^ (t_old ^ g))) == ((h_old ^ t_old) ^ g)) by (bit_vector);
        } else {
            assert(m2[lo as int] == mask[lo as int]);
        }
    }
}

/// The accumulator a parity worker builds from a run of data-chunk
/// contributions, starting from zeroes.
pub open spec fn acc_fold(
    t: GfTables,
    row: Seq<u8>,
    x: int,
    entries: Seq<(int, Seq<u8>)>,
) -> Seq<u8>
    decreases entries.len(),
{
    if entries.len() == 0 {
        zero_seq(x)
    } else {
        xor_seq(
            acc_fold(t, row, x, entries.drop_last()),
            scale_seq(t, row[entries.last().0], entries.last().1),
        )
    }
}

/// Some contribution in the run answers for data position `j`.
pub open spec fn covers(entries: Seq<(int, Seq<u8>)>, j: int) -> bool {
    exists|q: int| 0 <= q < entries.len() && (#[trigger] entries[q]).0 == j
}

/// Which data positions a run of contributions has covered.
spec fn mask_of(entries: Seq<(int, Seq<u8>)>, d: int) -> Seq<bool> {
    Seq::new(d as nat, |j: int| covers(entries, j))
}

/// The accumulator equals the dot product over the covered positions.
proof fn lemma_acc_fold_masked(
    t: GfTables,
    row: Seq<u8>,
    x: int,
    d: int,
    entries: Seq<(int, Seq<u8>)>,
    sol: Seq<Seq<u8>>,
)
    requires
        t.wf(),
        x >= 0,
        row.len() == d,
        sol.len() == d,
        forall|i: int| 0 <= i < d ==> (#[trigger] sol[i]).len() == x,
        forall|q: int|
            0 <= q < entries.len() ==> 0 <= (#[trigger] entries[q]).0 < d && entries[q].1
                == sol[entries[q].0],
        forall|q1: int, q2: int|
            0 <= q1 < q2 < entries.len() ==> (#[trigger] entries[q1]).0 != (
            #[trigger] entries[q2]).0,
    ensures
        acc_fold(t, row, x, entries).len() == x,
        forall|p: int|
            0 <= p < x ==> #[trigger] acc_fold(t, row, x, entries)[p] == masked_dot_from(
                t,
                row,
                col(sol, p),
                mask_of(entries, d),
                0,
            ),
    decreases entries.len(),
{
    if entries.len() == 0 {
        assert forall|p: int| 0 <= p < x implies #[trigger] acc_fold(t, row, x, entries)[p]
            == masked_dot_from(t, row, col(sol, p), mask_of(entries, d), 0) by {
            lemma_masked_none(t, row, col(sol, p), mask_of(entries, d), 0);
        }
    } else {
        let es0 = entries.drop_last();
        let last = entries.last();
        assert forall|q: int|
            0 <= q < es0.len() implies 0 <= (#[trigger] es0[q]).0 < d && es0[q].1
            == sol[es0[q].0] by {
            assert(entries[q] == es0[q]);
        }
        assert forall|q1: int, q2: int|
            0 <= q1 < q2 < es0.len() implies (#[trigger] es0[q1]).0 != (#[trigger] es0[q2]).0 by {
            assert(entries[q1] == es0[q1]);
            assert(entries[q2] == es0[q2]);
        }
        lemma_acc_fold_masked(t, row, x, d, es0, sol);
        // the covered set grows by exactly the last entry's position
        assert(mask_of(entries, d) =~= mask_of(es0, d).update(last.0, true)) by {
            assert forall|j: int| 0 <= j < d implies mask_of(entries, d)[j] == mask_of(
                es0,
                d,
            ).update(last.0, true)[j] by {
                if j == last.0 {
                    assert(entries[entries.len() - 1].0 == j);
                    assert(covers(entries, j));
                } else {
                    if covers(entries, j) {
                        let q = choose|q: int|
                            0 <= q < entries.len() && (#[trigger] entries[q]).0 == j;
                        assert(q < entries.len() - 1);
                        assert(es0[q].0 == j);
                        assert(covers(es0, j));
                    }
                    if covers(es0, j) {
                        let q = choose|q: int| 0 <= q < es0.len() && (#[trigger] es0[q]).0 == j;
                        assert(entries[q].0 == j);
                        assert(covers(entries, j));
                    }
                }
            }
        }
        assert(!mask_of(es0, d)[last.0]) by {
            if covers(es0, last.0) {
                let q = choose|q: int| 0 <= q < es0.len() && (#[trigger] es0[q]).0 == last.0;
                assert(entries[q].0 == (#[trigger] entries[entries.len() - 1]).0);
            }
        }
        assert forall|p: int| 0 <= p < x implies #[trigger] acc_fold(t, row, x, entries)[p]
            == masked_dot_from(t, row, col(sol, p), mask_of(entries, d), 0) by {
            lemma_masked_dot_update(t, row, col(sol, p), mask_of(es0, d), last.0, 0);
            assert(acc_fold(t, row, x, entries)[p] == gf_add(
                acc_fold(t, row, x, es0)[p],
                gf_mul(t, row[last.0], last.1[p]),
            ));
            assert(col(sol, p)[last.0] == sol[last.0][p]);
            assert(last.1[p] == sol[last.0][p]);
        }
    }
}

/// An empty selection contributes nothing.
proof fn lemma_masked_none(t: GfTables, row: Seq<u8>, vals: Seq<u8>, mask: Seq<bool>, lo: nat)
    requires
        forall|j: int| 0 <= j < row.len() ==> !(#[trigger] mask[j]),
    ensures
        masked_dot_from(t, row, vals, mask, lo) == 0,
    decreases row.len() - lo,
{
    if lo < row.len() {
        lemma_masked_none(t, row, vals, mask, lo + 1);
        assert((0u8 ^ 0u8) == 0u8) by (bit_vector);
    }
}

/// Incremental parity aggregation is order-free: folding one contribution
/// per data position, in any arrival order, yields the parity row applied
/// to the slice's data.  This is what makes the worker's pending
/// accumulator sound: the per-sender mailboxes only preserve intra-sender
/// order, and no more is needed.
pub proof fn lemma_parity_aggregation(
    t: GfTables,
    row: Seq<u8>,
    x: int,
    d: int,
    entries: Seq<(int, Seq<u8>)>,
    sol: Seq<Seq<u8>>,
)
    requires
        t.wf(),
        x >= 0,
        d >= 0,
        row.len() == d,
        sol.len() == d,
        forall|i: int| 0 <= i < d ==> (#[trigger] sol[i]).len() == x,
        entries.len() == d,
        forall|q: int|
            0 <= q < entries.len() ==> 0 <= (#[trigger] entries[q]).0 < d && entries[q].1
                == sol[entries[q].0],
        forall|q1: int, q2: int|
            0 <= q1 < q2 < entries.len() ==> (#[trigger] entries[q1]).0 != (
            #[trigger] entries[q2]).0,
        forall|j: int| 0 <= j < d ==> #[trigger] covers(entries, j),
    ensures
        acc_fold(t, row, x, entries).len() == x,
        forall|p: int|
            0 <= p < x ==> #[trigger] acc_fold(t, row, x, entries)[p] == dot(t, row, col(sol, p)),
{
    lemma_acc_fold_masked(t, row, x, d, entries, sol);
    assert forall|j: int| 0 <= j < row.len() implies #[trigger] mask_of(entries, d)[j] by {
        assert(covers(entries, j));
    }
    assert forall|p: int| 0 <= p < x implies #[trigger] acc_fold(t, row, x, entries)[p] == dot(
        t,
        row,
        col(sol, p),
    ) by {
        lemma_masked_dot_full(t, row, col(sol, p), mask_of(entries, d), 0);
    }
}

/// What handling `NewData` / `NewDataAt` guarantees: the chunk is stored
/// and fanned out to the slice's parity devices.
pub open spec fn post_new_data(
    pre: Node,
    post: Node,
    data_slice: usize,
    data: Seq<u8>,
    at_variant: bool,
    r: Seq<Action>,
) -> bool {
    &&& post.wf()
    &&& post.stored(data_slice as int) == data
    &&& post.pending == pre.pending
    &&& forall|s2: int| s2 != data_slice ==> post.slot(s2) == pre.slot(s2)
    &&& r.len() == pre.c
    &&& forall|k: int|
        0 <= k < pre.c ==> #[trigger] checksum_send_ok(
            r[k],
            device_for(pre.n(), data_slice as int, pre.d + k),
            data_slice,
            data,
            pre.dev_idx,
            at_variant,
        )
}

/// What handling `UpdateData` guarantees: the chunk is replaced and the
/// difference is fanned out to the slice's parity devices.
pub open spec fn post_update_data(
    pre: Node,
    post: Node,
    data_slice: usize,
    data: Seq<u8>,
    r: Seq<Action>,
) -> bool {
    &&& post.wf()
    &&& post.stored(data_slice as int) == data
    &&& post.pending == pre.pending
    &&& forall|s2: int| s2 != data_slice ==> post.slot(s2) == pre.slot(s2)
    &&& r.len() == pre.c
    &&& forall|k: int|
        0 <= k < pre.c ==> #[trigger] update_send_ok(
            r[k],
            device_for(pre.n(), data_slice as int, pre.d + k),
            data_slice,
            xor_seq(data, pre.stored(data_slice as int)),
            pre.dev_idx,
        )
}

/// What handling `NewDataChecksum` guarantees: the chunk's contribution
/// is aggregated; the count gate commits the finished parity exactly once
/// and answers every queued recovery request with it.
pub open spec fn post_new_data_checksum(
    pre: Node,
    post: Node,
    data_slice: usize,
    data: Seq<u8>,
    from: usize,
    r: Seq<Action>,
) -> bool {
    &&& post.wf()
    &&& ({
        let s = data_slice as int;
        let i = pos_for(pre.n(), s, from as int);
        let added = pre.contribution(s, i, data);
        if pre.has_pending(s) {
            let pe = pre.pending@[pre.pending_at(s)].1;
            let acc = xor_seq(pe.current_checksum@, added);
            if pe.count + 1 == pre.d {
                // all data chunks received: commit and flush
                &&& post.stored(s) == acc
                &&& !post.has_pending(s)
                &&& r.len() == pe.missed_recover_dev_idx@.len()
                &&& forall|q: int|
                    0 <= q < r.len() ==> #[trigger] recover_send_ok(
                        r[q],
                        pe.missed_recover_dev_idx@[q] as int,
                        data_slice,
                        acc,
                        pre.dev_idx,
                    )
            } else {
                // still waiting: fold into the accumulator
                &&& post.has_pending(s)
                &&& post.pending@[post.pending_at(s)].1.current_checksum@ == acc
                &&& post.pending@[post.pending_at(s)].1.count == pe.count + 1
                &&& post.pending@[post.pending_at(s)].1.missed_recover_dev_idx
                    == pe.missed_recover_dev_idx
                &&& post.slot(s) == pre.slot(s)
                &&& r.len() == 0
            }
        } else {
            // first data chunk of the slice
            if pre.d == 1 {
                &&& post.stored(s) == xor_seq(zero_seq(pre.x as int), added)
                &&& !post.has_pending(s)
                &&& r.len() == 0
            } else {
                &&& post.has_pending(s)
                &&& post.pending@[post.pending_at(s)].1.current_checksum@ == xor_seq(
                    zero_seq(pre.x as int),
                    added,
                )
                &&& post.pending@[post.pending_at(s)].1.count == 1
                &&& post.pending@[post.pending_at(s)].1.missed_recover_dev_idx@.len() == 0
                &&& post.slot(s) == pre.slot(s)
                &&& r.len() == 0
            }
        }
    })
}

/// What handling `NewDataChecksumAt` guarantees: the chunk's contribution
/// is folded straight into the stored parity chunk.
pub open spec fn post_new_data_checksum_at(
    pre: Node,
    post: Node,
    data_slice: usize,
    data: Seq<u8>,
    from: usize,
    r: Seq<Action>,
) -> bool {
    &&& post.wf()
    &&& post.stored(data_slice as int) == xor_seq(
        pre.stored(data_slice as int),
        pre.contribution(
            data_slice as int,
            pos_for(pre.n(), data_slice as int, from as int),
            data,
        ),
    )
    &&& post.pending == pre.pending
    &&& forall|s2: int| s2 != data_slice ==> post.slot(s2) == pre.slot(s2)
    &&& r.len() == 0
}

/// What handling `UpdateDataChecksum` guarantees: the difference is folded
/// into the pending accumulator while data chunks are still expected, else
/// into the stored chunk.
pub open spec fn post_update_data_checksum(
    pre: Node,
    post: Node,
    data_slice: usize,
    diff: Seq<u8>,
    from: usize,
    r: Seq<Action>,
) -> bool {
    &&& post.wf()
    &&& ({
        let s = data_slice as int;
        let added = pre.contribution(s, pos_for(pre.n(), s, from as int), diff);
        if pre.has_pending(s) {
            let pe = pre.pending@[pre.pending_at(s)].1;
            &&& post.has_pending(s)
            &&& post.pending@[post.pending_at(s)].1.current_checksum@ == xor_seq(
                pe.current_checksum@,
                added,
            )
            &&& post.pending@[post.pending_at(s)].1.count == pe.count
            &&& post.pending@[post.pending_at(s)].1.missed_recover_dev_idx
                == pe.missed_recover_dev_idx
            &&& post.slot(s) == pre.slot(s)
        } else {
            &&& post.stored(s) == xor_seq(pre.stored(s), added)
            &&& post.pending == pre.pending
        }
    })
    &&& forall|s2: int| s2 != data_slice ==> post.slot(s2) == pre.slot(s2)
    &&& r.len() == 0
}

/// What handling `NeedRecover` guarantees: the peer is answered with this
/// device's chunk, or queued on the pending parity entry.
pub open spec fn post_need_recover(
    pre: Node,
    post: Node,
    data_slice: usize,
    asker: usize,
    r: Seq<Action>,
) -> bool {
    &&& post.wf()
    &&& post.store == pre.store
    &&& ({
        let s = data_slice as int;
        if pre.is_data_node(s) || !pre.has_pending(s) {
            &&& post.pending == pre.pending
            &&& r.len() == 1
            &&& recover_send_ok(r[0], asker as int, data_slice, pre.stored(s), pre.dev_idx)
        } else {
            let pe = pre.pending@[pre.pending_at(s)].1;
            &&& r.len() == 0
            &&& post.has_pending(s)
            &&& post.pending@[post.pending_at(s)].1.missed_recover_dev_idx@
                == pe.missed_recover_dev_idx@.push(asker)
            &&& post.pending@[post.pending_at(s)].1.count == pe.count
            &&& post.pending@[post.pending_at(s)].1.current_checksum == pe.current_checksum
        }
    })
}

/// The in-slice position a recovery reply answers for.
pub open spec fn reply_pos(node: Node, s: usize, r: RecoverMsg) -> int {
    match r {
        RecoverMsg::RequestedData { dev_idx, .. } => pos_for(node.n(), s as int, dev_idx as int),
    }
}

/// The replies answer pairwise distinct positions of the slice.
pub open spec fn replies_distinct(node: Node, s: usize, rs: Seq<RecoverMsg>) -> bool {
    forall|q1: int, q2: int|
        0 <= q1 < q2 < rs.len() ==> #[trigger] reply_pos(node, s, rs[q1]) != #[trigger] reply_pos(
            node,
            s,
            rs[q2],
        )
}

/// How many of the first `q` replies answer for data positions.
spec fn count_data_replies(node: Node, s: usize, rs: Seq<RecoverMsg>, q: int) -> int
    decreases q,
{
    if q <= 0 {
        0
    } else {
        count_data_replies(node, s, rs, q - 1) + (if reply_pos(node, s, rs[q - 1]) < node.d {
            1int
        } else {
            0int
        })
    }
}

/// One device's worker state: its index, the parity matrix, its chunk
/// store, and the parity chunks still being aggregated.
pub struct Node {
    pub dev_idx: usize,
    pub d: usize,
    pub c: usize,
    pub x: usize,
    pub tables: GfTables,
    pub vandermonde: Matrix,
    pub store: Vec<Option<Vec<u8>>>,
    pub pending: Vec<(usize, PendingParity)>,
}

impl Node {
    /// Total number of devices.
    pub open spec fn n(self) -> int {
        self.d + self.c
    }

    /// This device's in-slice position for slice `s`.
    pub open spec fn my_pos(self, s: int) -> int {
        pos_for(self.n(), s, self.dev_idx as int)
    }

    /// This device holds a data chunk of slice `s` (rather than parity).
    pub open spec fn is_data_node(self, s: int) -> bool {
        self.my_pos(s) < self.d
    }

    /// The chunk slot for slice `s`.
    pub open spec fn slot(self, s: int) -> Option<Vec<u8>> {
        if 0 <= s < self.store@.len() {
            self.store@[s]
        } else {
            None
        }
    }

    /// The stored chunk for slice `s`, an empty slot reading as zeroes.
    pub open spec fn stored(self, s: int) -> Seq<u8> {
        match self.slot(s) {
            Some(ch) => ch@,
            None => zero_seq(self.x as int),
        }
    }

    /// A parity chunk for slice `s` is still being aggregated.
    pub open spec fn has_pending(self, s: int) -> bool {
        exists|k: int| 0 <= k < self.pending@.len() && (#[trigger] self.pending@[k]).0 == s
    }

    /// The index of the pending entry for slice `s`.
    pub open spec fn pending_at(self, s: int) -> int {
        choose|k: int| 0 <= k < self.pending@.len() && (#[trigger] self.pending@[k]).0 == s
    }

    /// The worker invariant.
    pub open spec fn wf(self) -> bool {
        &&& self.tables.wf()
        &&& self.d >= 1
        &&& self.x >= 1
        &&& self.d + self.c <= 256
        &&& (self.dev_idx as int) < self.n()
        &&& self.vandermonde.is_shape(self.c as int, self.d as int)
        &&& forall|k: int|
            (0 <= k < self.store@.len() && (#[trigger] self.store@[k]) is Some)
                ==> self.store@[k].unwrap()@.len() == self.x
        &&& forall|k: int|
            0 <= k < self.pending@.len() ==> (
            #[trigger] self.pending@[k]).1.current_checksum@.len() == self.x
        &&& forall|k: int|
            0 <= k < self.pending@.len() ==> (#[trigger] self.pending@[k]).1.count < self.d
        &&& forall|k1: int, k2: int|
            0 <= k1 < k2 < self.pending@.len() ==> (#[trigger] self.pending@[k1]).0 != (
            #[trigger] self.pending@[k2]).0
    }

    /// Create a worker for device `dev_idx`.
    pub fn new(dev_idx: usize, d: usize, c: usize, x: usize, tables: GfTables, vandermonde: Matrix)
        -> (r: Node)
        requires
            tables.wf(),
            d >= 1,
            x >= 1,
            d + c <= 256,
            dev_idx < d + c,
            vandermonde.is_shape(c as int, d as int),
        ensures
            r.wf(),
            r.dev_idx == dev_idx,
            r.d == d,
            r.c == c,
            r.x == x,
            r.store@.len() == 0,
            r.pending@.len() == 0,
    {
        Node { dev_idx, d, c, x, tables, vandermonde, store: Vec::new(), pending: Vec::new() }
    }

    /// This device's in-slice position for a slice.
    pub fn data_check_idx(&self, data_slice: usize) -> (r: usize)
        requires
            self.d >= 1,
            self.d + self.c <= 256,
            (self.dev_idx as int) < self.n(),
        ensures
            r == self.my_pos(data_slice as int),
            r < self.n(),
            device_for(self.n(), data_slice as int, r as int) == self.dev_idx,
    {
        proof {
            lemma_pos_for(self.n(), data_slice as int, self.dev_idx as int);
        }
        pos_for_exec(self.d + self.c, data_slice, self.dev_idx)
    }

    /// Find the pending-parity entry for a slice.
    fn find_pending(&self, data_slice: usize) -> (r: Option<usize>)
        ensures
            r is Some ==> r.unwrap() < self.pending@.len()
                && self.pending@[r.unwrap() as int].0 == data_slice,
            r is None ==> !self.has_pending(data_slice as int),
    {
        let mut k: usize = 0;
        while k < self.pending.len()
            invariant
                k <= self.pending@.len(),
                forall|j: int| 0 <= j < k ==> (#[trigger] self.pending@[j]).0 != data_slice,
            decreases self.pending@.len() - k,
        {
            if self.pending[k].0 == data_slice {
                return Some(k);
            }
            k += 1;
        }
        None
    }

    /// Read this device's chunk of a slice, an empty slot as zeroes.
    pub fn read_chunk(&self, data_slice: usize) -> (r: Vec<u8>)
        requires
            self.wf(),
        ensures
            r@ == self.stored(data_slice as int),
            r@.len() == self.x,
    {
        if data_slice < self.store.len() {
            match &self.store[data_slice] {
                Some(ch) => {
                    let r = copy_row(ch);
                    proof {
                        assert(self.slot(data_slice as int) == Some(*ch));
                    }
                    r
                },
                None => {
                    let r = zero_chunk(self.x);
                    proof {
                        assert(r@ =~= zero_seq(self.x as int));
                    }
                    r
                },
            }
        } else {
            let r = zero_chunk(self.x);
            proof {
                assert(r@ =~= zero_seq(self.x as int));
            }
            r
        }
    }

    /// Store this device's chunk of a slice.
    fn write_chunk(&mut self, data_slice: usize, ch: Vec<u8>)
        requires
            old(self).wf(),
            ch@.len() == old(self).x,
            data_slice + 1 <= usize::MAX,
        ensures
            final(self).wf(),
            final(self).dev_idx == old(self).dev_idx,
            final(self).d == old(self).d,
            final(self).c == old(self).c,
            final(self).x == old(self).x,
            final(self).tables == old(self).tables,
            final(self).vandermonde == old(self).vandermonde,
            final(self).pending == old(self).pending,
            final(self).slot(data_slice as int) == Some(ch),
            forall|s2: int| s2 != data_slice ==> final(self).slot(s2) == old(self).slot(s2),
    {
        let ghost orig = self.store@;
        while self.store.len() < data_slice + 1
            invariant
                self.store@.len() >= orig.len(),
                forall|k: int| 0 <= k < orig.len() ==> self.store@[k] == orig[k],
                forall|k: int|
                    orig.len() <= k < self.store@.len() ==> (#[trigger] self.store@[k]) is None,
                self.dev_idx == old(self).dev_idx,
                self.d == old(self).d,
                self.c == old(self).c,
                self.x == old(self).x,
                self.tables == old(self).tables,
                self.vandermonde == old(self).vandermonde,
                self.pending == old(self).pending,
                data_slice + 1 <= usize::MAX,
            decreases data_slice + 1 - self.store@.len(),
        {
            self.store.push(None);
        }
        self.store[data_slice] = Some(ch);
        proof {
            assert forall|k: int|
                (0 <= k < self.store@.len() && (#[trigger] self.store@[k]) is Some) implies self.store@[k].unwrap()@.len()
                == self.x by {
                if k != data_slice {
                    if 0 <= k < orig.len() {
                        assert(self.store@[k] == orig[k]);
                        assert(old(self).store@[k] == orig[k]);
                    } else {
                        assert(self.store@[k] is None);
                    }
                }
            }
            assert forall|s2: int| s2 != data_slice implies final(self).slot(s2) == old(self).slot(
                s2,
            ) by {
                if 0 <= s2 < orig.len() {
                    assert(self.store@[s2] == orig[s2]);
                } else if 0 <= s2 < self.store@.len() {
                    assert(self.store@[s2] is None);
                }
            }
        }
    }

    /// The contribution of data chunk `data` at data position `i` to this
    /// device's parity chunk of slice `s`: `V[own_parity_idx][i] * data`.
    pub open spec fn contribution(self, s: int, i: int, data: Seq<u8>) -> Seq<u8> {
        scale_seq(self.tables, self.vandermonde.m()[self.my_pos(s) - self.d][i], data)
    }

    /// Compute the contribution of a peer's data chunk folded into a base
    /// chunk: `base + V[own_parity_idx][pos(from)] * data`.
    fn fold_contribution(&self, data_slice: usize, from: usize, data: &Vec<u8>, base: Vec<u8>)
        -> (r: Vec<u8>)
        requires
            self.wf(),
            !self.is_data_node(data_slice as int),
            from < self.d + self.c,
            pos_for(self.n(), data_slice as int, from as int) < self.d,
            data@.len() == self.x,
            base@.len() == self.x,
        ensures
            r@ == xor_seq(
                base@,
                self.contribution(
                    data_slice as int,
                    pos_for(self.n(), data_slice as int, from as int),
                    data@,
                ),
            ),
            r@.len() == self.x,
    {
        let kk = self.data_check_idx(data_slice) - self.d;
        let i = pos_for_exec(self.d + self.c, data_slice, from);
        proof {
            assert(self.vandermonde.m()[kk as int].len() == self.d);
            assert(self.vandermonde.data@[kk as int]@.len() == self.d);
        }
        let coeff = self.vandermonde.data[kk][i];
        let mut r = base;
        row_xor_scale(&self.tables, &mut r, data, coeff);
        proof {
            assert(coeff == self.vandermonde.m()[kk as int][i as int]);
        }
        r
    }

    /// Handle `NewData` / `NewDataAt`: store the data chunk and fan the
    /// chunk out to the slice's parity devices.  `at_variant` selects the
    /// chunk-by-chunk protocol message.
    pub fn on_new_data(&mut self, data_slice: usize, data: Vec<u8>, at_variant: bool) -> (r: Vec<
        Action,
    >)
        requires
            old(self).wf(),
            old(self).is_data_node(data_slice as int),
            data@.len() == old(self).x,
            data_slice + 1 <= usize::MAX,
        ensures
            post_new_data(*old(self), *final(self), data_slice, data@, at_variant, r@),
    {
        let mut acts: Vec<Action> = Vec::new();
        let n = self.d + self.c;
        let mut k: usize = 0;
        while k < self.c
            invariant
                self.wf(),
                k <= self.c,
                n == self.d + self.c,
                data@.len() == self.x,
                acts@.len() == k,
                forall|k2: int|
                    0 <= k2 < k ==> #[trigger] checksum_send_ok(
                        acts@[k2],
                        device_for(self.n(), data_slice as int, self.d + k2),
                        data_slice,
                        data@,
                        self.dev_idx,
                        at_variant,
                    ),
            decreases self.c - k,
        {
            let dv = device_for_exec(n, data_slice, self.d + k);
            let ch = copy_row(&data);
            let m = if at_variant {
                Msg::NewDataChecksumAt { data_slice, data: ch, dev_idx: self.dev_idx }
            } else {
                Msg::NewDataChecksum { data_slice, data: ch, dev_idx: self.dev_idx }
            };
            acts.push(Action::Send { dev_idx: dv, msg: m });
            k += 1;
        }
        self.write_chunk(data_slice, data);
        acts
    }

    /// Handle `UpdateData`: store the new chunk and fan the difference
    /// `new - old` out to the slice's parity devices.
    pub fn on_update_data(&mut self, data_slice: usize, data: Vec<u8>) -> (r: Vec<Action>)
        requires
            old(self).wf(),
            old(self).is_data_node(data_slice as int),
            data@.len() == old(self).x,
            data_slice + 1 <= usize::MAX,
        ensures
            post_update_data(*old(self), *final(self), data_slice, data@, r@),
    {
        let old_data = self.read_chunk(data_slice);
        let diff = crate::matrix::xor_rows(&data, &old_data);
        let mut acts: Vec<Action> = Vec::new();
        let n = self.d + self.c;
        let mut k: usize = 0;
        while k < self.c
            invariant
                self.wf(),
                k <= self.c,
                n == self.d + self.c,
                data@.len() == self.x,
                diff@ == xor_seq(data@, self.stored(data_slice as int)),
                acts@.len() == k,
                forall|k2: int|
                    0 <= k2 < k ==> #[trigger] update_send_ok(
                        acts@[k2],
                        device_for(self.n(), data_slice as int, self.d + k2),
                        data_slice,
                        xor_seq(data@, self.stored(data_slice as int)),
                        self.dev_idx,
                    ),
            decreases self.c - k,
        {
            let dv = device_for_exec(n, data_slice, self.d + k);
            let df = copy_row(&diff);
            acts.push(
                Action::Send {
                    dev_idx: dv,
                    msg: Msg::UpdateDataChecksum { data_slice, diff: df, dev_idx: self.dev_idx },
                },
            );
            k += 1;
        }
        self.write_chunk(data_slice, data);
        acts
    }

    /// Handle `NewDataChecksum`: aggregate one more data chunk into the
    /// pending parity of the slice.  Arrival order is immaterial because
    /// the accumulator is a sum over GF(2^8); the count gate writes the
    /// finished chunk exactly once and answers every queued recovery
    /// request with it.
    #[verifier::rlimit(100)]
    pub fn on_new_data_checksum(&mut self, data_slice: usize, data: Vec<u8>, from: usize) -> (r:
        Vec<Action>)
        requires
            old(self).wf(),
            !old(self).is_data_node(data_slice as int),
            from < old(self).d + old(self).c,
            pos_for(old(self).n(), data_slice as int, from as int) < old(self).d,
            data@.len() == old(self).x,
            data_slice + 1 <= usize::MAX,
        ensures
            post_new_data_checksum(*old(self), *final(self), data_slice, data@, from, r@),
    {
        match self.find_pending(data_slice) {
            Some(k) => {
                proof {
                    (*self).lemma_pending_unique(data_slice as int, k as int);
                }
                let count = self.pending[k].1.count;
                let acc = copy_row(&self.pending[k].1.current_checksum);
                let newacc = self.fold_contribution(data_slice, from, &data, acc);
                if count + 1 == self.d {
                    let entry = self.pending.remove(k);
                    proof {
                        assert forall|k1: int, k2: int|
                            0 <= k1 < k2 < self.pending@.len() implies (
                        #[trigger] self.pending@[k1]).0 != (#[trigger] self.pending@[k2]).0 by {
                            if k1 < k {
                                if k2 < k {
                                    assert(old(self).pending@[k1].0 != old(self).pending@[k2].0);
                                } else {
                                    assert(old(self).pending@[k1].0 != old(self).pending@[k2
                                        + 1].0);
                                }
                            } else {
                                assert(old(self).pending@[k1 + 1].0 != old(self).pending@[k2
                                    + 1].0);
                            }
                        }
                        assert(!self.has_pending(data_slice as int)) by {
                            if self.has_pending(data_slice as int) {
                                let k2 = self.pending_at(data_slice as int);
                                if k2 < k {
                                    assert(old(self).pending@[k2].0 == data_slice);
                                    assert(old(self).pending@[k as int].0 == data_slice);
                                } else {
                                    assert(old(self).pending@[k2 + 1].0 == data_slice);
                                    assert(old(self).pending@[k as int].0 == data_slice);
                                }
                            }
                        }
                    }
                    self.write_chunk(data_slice, copy_row(&newacc));
                    let mut acts: Vec<Action> = Vec::new();
                    let mut q: usize = 0;
                    while q < entry.1.missed_recover_dev_idx.len()
                        invariant
                            self.wf(),
                            q <= entry.1.missed_recover_dev_idx@.len(),
                            newacc@.len() == self.x,
                            acts@.len() == q,
                            forall|q2: int|
                                0 <= q2 < q ==> #[trigger] recover_send_ok(
                                    acts@[q2],
                                    entry.1.missed_recover_dev_idx@[q2] as int,
                                    data_slice,
                                    newacc@,
                                    self.dev_idx,
                                ),
                        decreases entry.1.missed_recover_dev_idx@.len() - q,
                    {
                        let dv = entry.1.missed_recover_dev_idx[q];
                        let ch = copy_row(&newacc);
                        acts.push(
                            Action::SendRecover {
                                dev_idx: dv,
                                msg: RecoverMsg::RequestedData {
                                    data_slice,
                                    data: ch,
                                    dev_idx: self.dev_idx,
                                },
                            },
                        );
                        q += 1;
                    }
                    acts
                } else {
                    let e = vstd::std_specs::vec::vec_index_mut(&mut self.pending, k);
                    e.1.current_checksum = newacc;
                    e.1.count = count + 1;
                    proof {
                        (*self).lemma_pending_unique(data_slice as int, k as int);
                    }
                    Vec::new()
                }
            },
            None => {
                let base = zero_chunk(self.x);
                proof {
                    assert(base@ =~= zero_seq(self.x as int));
                }
                let newacc = self.fold_contribution(data_slice, from, &data, base);
                if self.d == 1 {
                    self.write_chunk(data_slice, newacc);
                    Vec::new()
                } else {
                    self.pending.push(
                        (
                            data_slice,
                            PendingParity {
                                count: 1,
                                current_checksum: newacc,
                                missed_recover_dev_idx: Vec::new(),
                            },
                        ),
                    );
                    proof {
                        (*self).lemma_pending_unique(
                            data_slice as int,
                            self.pending@.len() - 1,
                        );
                        assert forall|k1: int, k2: int|
                            0 <= k1 < k2 < self.pending@.len() implies (
                        #[trigger] self.pending@[k1]).0 != (#[trigger] self.pending@[k2]).0 by {
                            if k2 < self.pending@.len() - 1 {
                                assert(old(self).pending@[k1].0 != old(self).pending@[k2].0);
                            } else {
                                assert(old(self).pending@[k1].0 == self.pending@[k1].0);
                                if self.pending@[k1].0 == data_slice {
                                    assert(old(self).has_pending(data_slice as int));
                                }
                            }
                        }
                    }
                    Vec::new()
                }
            },
        }
    }

    /// Any pending entry whose slice matches is the one `pending_at`
    /// picks.
    proof fn lemma_pending_unique(self, s: int, k: int)
        requires
            forall|k1: int, k2: int|
                0 <= k1 < k2 < self.pending@.len() ==> (#[trigger] self.pending@[k1]).0 != (
                #[trigger] self.pending@[k2]).0,
            0 <= k < self.pending@.len(),
            self.pending@[k].0 == s,
        ensures
            self.has_pending(s),
            self.pending_at(s) == k,
    {
        assert(self.has_pending(s));
        let k2 = self.pending_at(s);
        if k2 != k {
            if k2 < k {
                assert(self.pending@[k2].0 != self.pending@[k].0);
            } else {
                assert(self.pending@[k].0 != self.pending@[k2].0);
            }
        }
    }

    /// Handle `NewDataChecksumAt`: fold one data chunk straight into the
    /// stored parity chunk, treating an absent chunk as zeroes.  Requires
    /// that no aggregation is pending for the slice, as the protocol
    /// guarantees for the chunk-by-chunk fill path.
    pub fn on_new_data_checksum_at(&mut self, data_slice: usize, data: Vec<u8>, from: usize) -> (r:
        Vec<Action>)
        requires
            old(self).wf(),
            !old(self).is_data_node(data_slice as int),
            !old(self).has_pending(data_slice as int),
            from < old(self).d + old(self).c,
            pos_for(old(self).n(), data_slice as int, from as int) < old(self).d,
            data@.len() == old(self).x,
            data_slice + 1 <= usize::MAX,
        ensures
            post_new_data_checksum_at(*old(self), *final(self), data_slice, data@, from, r@),
    {
        let base = self.read_chunk(data_slice);
        let newp = self.fold_contribution(data_slice, from, &data, base);
        self.write_chunk(data_slice, newp);
        Vec::new()
    }

    /// Handle `UpdateDataChecksum`: fold a data-chunk difference into the
    /// parity of the slice - into the pending accumulator while data
    /// chunks are still expected, else into the stored chunk.
    pub fn on_update_data_checksum(&mut self, data_slice: usize, diff: Vec<u8>, from: usize) -> (r:
        Vec<Action>)
        requires
            old(self).wf(),
            !old(self).is_data_node(data_slice as int),
            from < old(self).d + old(self).c,
            pos_for(old(self).n(), data_slice as int, from as int) < old(self).d,
            diff@.len() == old(self).x,
            data_slice + 1 <= usize::MAX,
        ensures
            post_update_data_checksum(*old(self), *final(self), data_slice, diff@, from, r@),
    {
        match self.find_pending(data_slice) {
            Some(k) => {
                proof {
                    (*self).lemma_pending_unique(data_slice as int, k as int);
                }
                let acc = copy_row(&self.pending[k].1.current_checksum);
                let newacc = self.fold_contribution(data_slice, from, &diff, acc);
                let e = vstd::std_specs::vec::vec_index_mut(&mut self.pending, k);
                e.1.current_checksum = newacc;
                proof {
                    (*self).lemma_pending_unique(data_slice as int, k as int);
                }
                Vec::new()
            },
            None => {
                let base = self.read_chunk(data_slice);
                let newp = self.fold_contribution(data_slice, from, &diff, base);
                self.write_chunk(data_slice, newp);
                Vec::new()
            },
        }
    }

    /// Handle `NeedRecover`: hand the recovering peer this device's chunk
    /// of the slice, unless the parity chunk is still being aggregated -
    /// then queue the peer, to be answered when the chunk is finished.
    pub fn on_need_recover(&mut self, data_slice: usize, asker: usize) -> (r: Vec<Action>)
        requires
            old(self).wf(),
        ensures
            post_need_recover(*old(self), *final(self), data_slice, asker, r@),
    {
        let pos = self.data_check_idx(data_slice);
        if pos < self.d {
            let ch = self.read_chunk(data_slice);
            let mut acts: Vec<Action> = Vec::new();
            acts.push(
                Action::SendRecover {
                    dev_idx: asker,
                    msg: RecoverMsg::RequestedData { data_slice, data: ch, dev_idx: self.dev_idx },
                },
            );
            acts
        } else {
            match self.find_pending(data_slice) {
                Some(k) => {
                    proof {
                        (*self).lemma_pending_unique(data_slice as int, k as int);
                    }
                    let e = vstd::std_specs::vec::vec_index_mut(&mut self.pending, k);
                    e.1.missed_recover_dev_idx.push(asker);
                    proof {
                        (*self).lemma_pending_unique(data_slice as int, k as int);
                    }
                    Vec::new()
                },
                None => {
                    let ch = self.read_chunk(data_slice);
                    let mut acts: Vec<Action> = Vec::new();
                    acts.push(
                        Action::SendRecover {
                            dev_idx: asker,
                            msg: RecoverMsg::RequestedData {
                                data_slice,
                                data: ch,
                                dev_idx: self.dev_idx,
                            },
                        },
                    );
                    acts
                },
            }
        }
    }

    /// Handle one inbound message: mutate the worker state and return the
    /// actions the surroundings must perform.  Each arm's behaviour is
    /// specified on the step method it calls; the trivial arms answer
    /// directly.
    pub fn handle_msg(&mut self, msg: Msg) -> (r: Vec<Action>)
        requires
            old(self).wf(),
            msg_wf(msg, *old(self)),
        ensures
            final(self).wf(),
            (msg matches Msg::NewData { data_slice, data } ==> post_new_data(
                *old(self),
                *final(self),
                data_slice,
                data@,
                false,
                r@,
            )),
            (msg matches Msg::NewDataAt { data_slice, data } ==> post_new_data(
                *old(self),
                *final(self),
                data_slice,
                data@,
                true,
                r@,
            )),
            (msg matches Msg::UpdateData { data_slice, data } ==> post_update_data(
                *old(self),
                *final(self),
                data_slice,
                data@,
                r@,
            )),
            (msg matches Msg::NewDataChecksum { data_slice, data, dev_idx }
                ==> post_new_data_checksum(
                *old(self),
                *final(self),
                data_slice,
                data@,
                dev_idx,
                r@,
            )),
            (msg matches Msg::NewDataChecksumAt { data_slice, data, dev_idx }
                ==> post_new_data_checksum_at(
                *old(self),
                *final(self),
                data_slice,
                data@,
                dev_idx,
                r@,
            )),
            (msg matches Msg::UpdateDataChecksum { data_slice, diff, dev_idx }
                ==> post_update_data_checksum(
                *old(self),
                *final(self),
                data_slice,
                diff@,
                dev_idx,
                r@,
            )),
            (msg matches Msg::NeedRecover { data_slice, dev_idx } ==> post_need_recover(
                *old(self),
                *final(self),
                data_slice,
                dev_idx,
                r@,
            )),
            (msg matches Msg::Ping ==> r@.len() == 1 && r@[0] is Pong && *final(self) == *old(
                self,
            )),
            (msg matches Msg::Shutdown ==> r@.len() == 1 && r@[0] is Stop && *final(self) == *old(
                self,
            )),
            (msg matches Msg::DestroyStorage { max_data_slice } ==> (r@.len() == 1 && (r@[0] matches Action::StartRecover {
                max_data_slice: m,
            } && m == max_data_slice) && (forall|s2: int| final(self).slot(s2) is None))),
            (msg matches Msg::HeadNodeDataRequest { data_slice } ==> (r@.len() == 1 && (r@[0] matches Action::Reply {
                msg: reply,
            } && reply.data_slice == data_slice && reply.data@ == old(self).stored(
                data_slice as int,
            )) && *final(self) == *old(self))),
    {
        match msg {
            Msg::NewData { data_slice, data } => self.on_new_data(data_slice, data, false),
            Msg::NewDataAt { data_slice, data } => self.on_new_data(data_slice, data, true),
            Msg::UpdateData { data_slice, data } => self.on_update_data(data_slice, data),
            Msg::NewDataChecksum { data_slice, data, dev_idx } => self.on_new_data_checksum(
                data_slice,
                data,
                dev_idx,
            ),
            Msg::NewDataChecksumAt { data_slice, data, dev_idx } => self.on_new_data_checksum_at(
                data_slice,
                data,
                dev_idx,
            ),
            Msg::UpdateDataChecksum { data_slice, diff, dev_idx } => self.on_update_data_checksum(
                data_slice,
                diff,
                dev_idx,
            ),
            Msg::NeedRecover { data_slice, dev_idx } => self.on_need_recover(data_slice, dev_idx),
            Msg::HeadNodeDataRequest { data_slice } => {
                let ch = self.read_chunk(data_slice);
                let mut acts: Vec<Action> = Vec::new();
                acts.push(Action::Reply { msg: CheckpointMsg { data_slice, data: ch } });
                acts
            },
            Msg::DestroyStorage { max_data_slice } => {
                self.store = Vec::new();
                let mut acts: Vec<Action> = Vec::new();
                acts.push(Action::StartRecover { max_data_slice });
                acts
            },
            Msg::Ping => {
                let mut acts: Vec<Action> = Vec::new();
                acts.push(Action::Pong);
                acts
            },
            Msg::Shutdown => {
                let mut acts: Vec<Action> = Vec::new();
                acts.push(Action::Stop);
                acts
            },
        }
    }

    /// The recovery requests for one slice: `NeedRecover` to every peer.
    pub fn recover_requests(&self, data_slice: usize) -> (r: Vec<Action>)
        requires
            self.wf(),
        ensures
            r@.len() == self.n() - 1,
            forall|q: int|
                0 <= q < r@.len() ==> #[trigger] need_recover_send_ok(
                    r@[q],
                    data_slice,
                    self.dev_idx,
                    self.n(),
                ),
    {
        let n = self.d + self.c;
        let mut acts: Vec<Action> = Vec::new();
        let mut i: usize = 0;
        while i < n
            invariant
                i <= n,
                n == self.n(),
                (self.dev_idx as int) < self.n(),
                acts@.len() == (if i <= self.dev_idx {
                    i as int
                } else {
                    i - 1
                }),
                forall|q: int|
                    0 <= q < acts@.len() ==> #[trigger] need_recover_send_ok(
                        acts@[q],
                        data_slice,
                        self.dev_idx,
                        self.n(),
                    ),
            decreases n - i,
        {
            if i != self.dev_idx {
                acts.push(
                    Action::Send {
                        dev_idx: i,
                        msg: Msg::NeedRecover { data_slice, dev_idx: self.dev_idx },
                    },
                );
            }
            i += 1;
        }
        acts
    }

    /// Rebuild this device's chunk of one slice from `d` peer replies:
    /// classify them into surviving data and parity positions, solve the
    /// recovery system, and store what this device ought to hold.
    ///
    /// Whenever the replies are consistent with a data row `sol` - data
    /// replies carrying `sol` chunks, parity replies carrying the code's
    /// parity of `sol` - and the solve succeeds, the stored chunk is this
    /// device's chunk of `sol`: the data chunk at its position, or the
    /// parity row applied to `sol`.
    #[verifier::rlimit(100)]
    pub fn recover_slice(&mut self, data_slice: usize, replies: &Vec<RecoverMsg>) -> (r: Result<
        (),
        Error,
    >)
        requires
            old(self).wf(),
            replies@.len() == old(self).d,
            data_slice + 1 <= usize::MAX,
            forall|q: int|
                0 <= q < replies@.len() ==> reply_shape_ok(
                    #[trigger] replies@[q],
                    data_slice,
                    old(self).x as int,
                    old(self).d + old(self).c,
                ),
        ensures
            final(self).wf(),
            final(self).pending == old(self).pending,
            r.is_err() ==> *final(self) == *old(self),
            r.is_err() ==> r.unwrap_err() == Error::SingularMatrix,
            mds_matrix(
                old(self).tables,
                old(self).vandermonde,
                old(self).d as int,
                old(self).c as int,
            ) && replies_distinct(*old(self), data_slice, replies@) ==> r.is_ok(),
            r.is_ok() ==> forall|s2: int|
                s2 != data_slice ==> final(self).slot(s2) == old(self).slot(s2),
            r.is_ok() ==> forall|sol: Seq<Seq<u8>>|
                grid_wf(sol, old(self).d as int, old(self).x as int)
                    && #[trigger] replies_consistent(*old(self), data_slice, replies@, sol) ==> (
                if old(self).is_data_node(data_slice as int) {
                    final(self).stored(data_slice as int) == sol[old(self).my_pos(
                        data_slice as int,
                    )]
                } else {
                    final(self).stored(data_slice as int) == parity_of(
                        *old(self),
                        old(self).my_pos(data_slice as int) - old(self).d,
                        sol,
                    )
                }),
    {
        let n = self.d + self.c;
        let ghost os = *self;
        let mut chunks: Vec<Vec<u8>> = Vec::new();
        let mut ds_idx: Vec<usize> = Vec::new();
        let mut cs_idx: Vec<usize> = Vec::new();
        // first pass: the surviving data chunks
        let mut q: usize = 0;
        while q < replies.len()
            invariant
                os.wf(),
                *self == os,
                os == *old(self),
                q <= replies@.len(),
                replies@.len() == os.d,
                n == os.d + os.c,
                forall|q2: int|
                    0 <= q2 < replies@.len() ==> reply_shape_ok(
                        #[trigger] replies@[q2],
                        data_slice,
                        os.x as int,
                        os.n(),
                    ),
                chunks@.len() == ds_idx@.len(),
                cs_idx@.len() == 0,
                ds_idx@.len() <= q,
                ds_idx@.len() == count_data_replies(os, data_slice, replies@, q as int),
                forall|k: int| 0 <= k < ds_idx@.len() ==> (#[trigger] ds_idx@[k]) < os.d,
                forall|k: int|
                    #![trigger ds_idx@[k]]
                    0 <= k < ds_idx@.len() ==> exists|qp: int|
                        0 <= qp < q && reply_pos(os, data_slice, #[trigger] replies@[qp])
                            == ds_idx@[k],
                replies_distinct(os, data_slice, replies@) ==> (forall|k1: int, k2: int|
                    0 <= k1 < k2 < ds_idx@.len() ==> (#[trigger] ds_idx@[k1]) != (
                    #[trigger] ds_idx@[k2])),
                forall|k: int| 0 <= k < chunks@.len() ==> (#[trigger] chunks@[k])@.len() == os.x,
                forall|sol: Seq<Seq<u8>>, k: int|
                    grid_wf(sol, os.d as int, os.x as int) && #[trigger] replies_consistent(
                        os,
                        data_slice,
                        replies@,
                        sol,
                    ) && 0 <= k < ds_idx@.len() ==> (#[trigger] chunks@[k])@ == sol[ds_idx@[k] as int],
            decreases replies@.len() - q,
        {
            match &replies[q] {
                RecoverMsg::RequestedData { data_slice: s2, data, dev_idx: f } => {
                    let pos = pos_for_exec(n, data_slice, *f);
                    proof {
                        assert(reply_pos(os, data_slice, replies@[q as int]) == pos);
                    }
                    if pos < self.d {
                        let ghost pre_ds = ds_idx@;
                        let ghost pre_chunks = chunks@;
                        chunks.push(copy_row(data));
                        ds_idx.push(pos);
                        proof {
                            if replies_distinct(os, data_slice, replies@) {
                                assert forall|k1: int, k2: int|
                                    0 <= k1 < k2 < ds_idx@.len() implies (
                                #[trigger] ds_idx@[k1]) != (#[trigger] ds_idx@[k2]) by {
                                    if k2 == ds_idx@.len() - 1 {
                                        assert(ds_idx@[k1] == pre_ds[k1]);
                                        assert(exists|qp: int|
                                            0 <= qp < q && reply_pos(
                                                os,
                                                data_slice,
                                                #[trigger] replies@[qp],
                                            ) == pre_ds[k1]);
                                        let qp = choose|qp: int|
                                            0 <= qp < q && reply_pos(
                                                os,
                                                data_slice,
                                                #[trigger] replies@[qp],
                                            ) == pre_ds[k1];
                                        assert(reply_pos(os, data_slice, replies@[qp]) != reply_pos(
                                            os,
                                            data_slice,
                                            replies@[q as int],
                                        ));
                                    } else {
                                        assert(pre_ds[k1] != pre_ds[k2]);
                                    }
                                }
                            }
                            assert forall|sol: Seq<Seq<u8>>, k: int|
                                grid_wf(sol, os.d as int, os.x as int)
                                    && #[trigger] replies_consistent(os, data_slice, replies@, sol)
                                    && 0 <= k < ds_idx@.len() implies (#[trigger] chunks@[k])@
                                == sol[ds_idx@[k] as int] by {
                                if k < ds_idx@.len() - 1 {
                                    assert(pre_chunks[k]@ == sol[ds_idx@[k] as int]);
                                } else {
                                    assert(reply_consistent(
                                        os,
                                        data_slice,
                                        replies@[q as int],
                                        sol,
                                    ));
                                }
                            }
                        }
                    }
                },
            }
            q += 1;
        }
        let ghost dsl = ds_idx@.len() as int;
        proof {
            assert(dsl == count_data_replies(os, data_slice, replies@, replies@.len() as int));
        }
        // second pass: the surviving parity chunks
        let mut q2i: usize = 0;
        while q2i < replies.len()
            invariant
                os.wf(),
                *self == os,
                os == *old(self),
                q2i <= replies@.len(),
                replies@.len() == os.d,
                n == os.d + os.c,
                forall|q2: int|
                    0 <= q2 < replies@.len() ==> reply_shape_ok(
                        #[trigger] replies@[q2],
                        data_slice,
                        os.x as int,
                        os.n(),
                    ),
                dsl == ds_idx@.len(),
                dsl == count_data_replies(os, data_slice, replies@, replies@.len() as int),
                dsl <= os.d,
                chunks@.len() == dsl + cs_idx@.len(),
                cs_idx@.len() <= q2i,
                cs_idx@.len() + count_data_replies(os, data_slice, replies@, q2i as int) == q2i,
                forall|k: int| 0 <= k < ds_idx@.len() ==> (#[trigger] ds_idx@[k]) < os.d,
                replies_distinct(os, data_slice, replies@) ==> (forall|k1: int, k2: int|
                    0 <= k1 < k2 < ds_idx@.len() ==> (#[trigger] ds_idx@[k1]) != (
                    #[trigger] ds_idx@[k2])),
                forall|k: int| 0 <= k < cs_idx@.len() ==> (#[trigger] cs_idx@[k]) < os.c,
                forall|k: int|
                    #![trigger cs_idx@[k]]
                    0 <= k < cs_idx@.len() ==> exists|qp: int|
                        0 <= qp < q2i && reply_pos(os, data_slice, #[trigger] replies@[qp])
                            == cs_idx@[k] + os.d,
                replies_distinct(os, data_slice, replies@) ==> (forall|k1: int, k2: int|
                    0 <= k1 < k2 < cs_idx@.len() ==> (#[trigger] cs_idx@[k1]) != (
                    #[trigger] cs_idx@[k2])),
                forall|k: int| 0 <= k < chunks@.len() ==> (#[trigger] chunks@[k])@.len() == os.x,
                forall|sol: Seq<Seq<u8>>, k: int|
                    grid_wf(sol, os.d as int, os.x as int) && #[trigger] replies_consistent(
                        os,
                        data_slice,
                        replies@,
                        sol,
                    ) && 0 <= k < dsl ==> (#[trigger] chunks@[k])@ == sol[ds_idx@[k] as int],
                forall|sol: Seq<Seq<u8>>, k: int|
                    grid_wf(sol, os.d as int, os.x as int) && #[trigger] replies_consistent(
                        os,
                        data_slice,
                        replies@,
                        sol,
                    ) && 0 <= k < cs_idx@.len() ==> (#[trigger] chunks@[dsl + k])@ == parity_of(
                        os,
                        cs_idx@[k] as int,
                        sol,
                    ),
            decreases replies@.len() - q2i,
        {
            match &replies[q2i] {
                RecoverMsg::RequestedData { data_slice: s2, data, dev_idx: f } => {
                    let pos = pos_for_exec(n, data_slice, *f);
                    proof {
                        assert(reply_pos(os, data_slice, replies@[q2i as int]) == pos);
                    }
                    if pos >= self.d {
                        let ghost pre_cs = cs_idx@;
                        let ghost pre_chunks = chunks@;
                        chunks.push(copy_row(data));
                        cs_idx.push(pos - self.d);
                        proof {
                            if replies_distinct(os, data_slice, replies@) {
                                assert forall|k1: int, k2: int|
                                    0 <= k1 < k2 < cs_idx@.len() implies (
                                #[trigger] cs_idx@[k1]) != (#[trigger] cs_idx@[k2]) by {
                                    if k2 == cs_idx@.len() - 1 {
                                        assert(cs_idx@[k1] == pre_cs[k1]);
                                        assert(exists|qp: int|
                                            0 <= qp < q2i && reply_pos(
                                                os,
                                                data_slice,
                                                #[trigger] replies@[qp],
                                            ) == pre_cs[k1] + os.d);
                                        let qp = choose|qp: int|
                                            0 <= qp < q2i && reply_pos(
                                                os,
                                                data_slice,
                                                #[trigger] replies@[qp],
                                            ) == pre_cs[k1] + os.d;
                                        assert(reply_pos(os, data_slice, replies@[qp]) != reply_pos(
                                            os,
                                            data_slice,
                                            replies@[q2i as int],
                                        ));
                                    } else {
                                        assert(pre_cs[k1] != pre_cs[k2]);
                                    }
                                }
                            }
                            assert forall|sol: Seq<Seq<u8>>, k: int|
                                grid_wf(sol, os.d as int, os.x as int)
                                    && #[trigger] replies_consistent(os, data_slice, replies@, sol)
                                    && 0 <= k < cs_idx@.len() implies (#[trigger] chunks@[dsl
                                + k])@ == parity_of(os, cs_idx@[k] as int, sol) by {
                                if k < cs_idx@.len() - 1 {
                                    assert(pre_chunks[dsl + k]@ == parity_of(
                                        os,
                                        cs_idx@[k] as int,
                                        sol,
                                    ));
                                } else {
                                    assert(reply_consistent(
                                        os,
                                        data_slice,
                                        replies@[q2i as int],
                                        sol,
                                    ));
                                }
                            }
                            assert forall|sol: Seq<Seq<u8>>, k: int|
                                grid_wf(sol, os.d as int, os.x as int)
                                    && #[trigger] replies_consistent(os, data_slice, replies@, sol)
                                    && 0 <= k < dsl implies (#[trigger] chunks@[k])@
                                == sol[ds_idx@[k] as int] by {
                                assert(pre_chunks[k]@ == sol[ds_idx@[k] as int]);
                            }
                        }
                    }
                },
            }
            q2i += 1;
        }
        proof {
            // every reply is classified exactly once, so the system is square
            assert(ds_idx@.len() + cs_idx@.len() == replies@.len());
            assert(self.vandermonde.m().len() == os.c);
            assert forall|k: int| 0 <= k < self.vandermonde.data@.len() implies (
            #[trigger] self.vandermonde.data@[k])@.len() == ds_idx@.len() + cs_idx@.len() by {
                assert(self.vandermonde.m()[k].len() == os.d);
                assert(self.vandermonde.m()[k] == self.vandermonde.data@[k]@);
            }
        }
        let mut rec = self.vandermonde.recovery_matrix(&self.tables, &ds_idx, &cs_idx);
        let ghost recm = rec.m();
        let ghost rhs0 = grid(chunks);
        let ghost cpre = chunks@;
        proof {
            assert forall|k: int| 0 <= k < os.d implies (#[trigger] grid(chunks)[k]).len()
                == os.x by {
                assert(grid(chunks)[k] == chunks@[k]@);
            }
        }
        let res = rec.gaussian_elimination(&self.tables, &mut chunks, self.x);
        if res.is_err() {
            proof {
                // under the MDS hypothesis, distinct surviving positions
                // make the system solvable, so the solve cannot have failed
                if mds_matrix(os.tables, os.vandermonde, os.d as int, os.c as int)
                    && replies_distinct(os, data_slice, replies@) {
                    let dsi = Seq::new(ds_idx@.len() as nat, |k: int| ds_idx@[k] as int);
                    let csi = Seq::new(cs_idx@.len() as nat, |k: int| cs_idx@[k] as int);
                    assert forall|k: int| 0 <= k < dsi.len() implies 0 <= #[trigger] dsi[k]
                        < os.d by {
                        assert(ds_idx@[k] < os.d);
                    }
                    assert forall|k1: int, k2: int|
                        0 <= k1 < k2 < dsi.len() implies (#[trigger] dsi[k1]) != (
                    #[trigger] dsi[k2]) by {
                        assert(ds_idx@[k1] != ds_idx@[k2]);
                    }
                    assert(distinct_below(dsi, os.d as int));
                    assert forall|k: int| 0 <= k < csi.len() implies 0 <= #[trigger] csi[k]
                        < os.c by {
                        assert(cs_idx@[k] < os.c);
                    }
                    assert forall|k1: int, k2: int|
                        0 <= k1 < k2 < csi.len() implies (#[trigger] csi[k1]) != (
                    #[trigger] csi[k2]) by {
                        assert(cs_idx@[k1] != cs_idx@[k2]);
                    }
                    assert(distinct_below(csi, os.c as int));
                    assert(crate::matrix::trivial_kernel(
                        os.tables,
                        recovery_rows(os.vandermonde, os.d as int, dsi, csi),
                        os.d as int,
                    ));
                    assert(recm =~~= recovery_rows(os.vandermonde, os.d as int, dsi, csi)) by {
                        assert forall|k: int| 0 <= k < os.d implies recm[k] == recovery_rows(
                            os.vandermonde,
                            os.d as int,
                            dsi,
                            csi,
                        )[k] by {
                            if k < dsi.len() {
                                assert(recm[k] == unit_row(os.d as int, ds_idx@[k] as int));
                            } else {
                                assert(recm[dsi.len() + (k - dsi.len())] == os.vandermonde.m()[cs_idx@[k
                                    - dsi.len()] as int]);
                            }
                        }
                    }
                    assert(crate::matrix::trivial_kernel(os.tables, recm, os.d as int));
                    assert(false);
                }
            }
            return Err(Error::SingularMatrix);
        }
        let own_pos = self.data_check_idx(data_slice);
        if own_pos < self.d {
            let ch = copy_row(&chunks[own_pos]);
            self.write_chunk(data_slice, ch);
        } else {
            proof {
                assert(self.vandermonde.m()[(own_pos - self.d) as int].len() == os.d);
                assert(self.vandermonde.data@[(own_pos - self.d) as int]@.len() == os.d);
                assert forall|k: int| 0 <= k < os.d implies (#[trigger] grid(chunks)[k]).len()
                    == os.x by {
                    assert(grid(chunks)[k] == chunks@[k]@);
                }
            }
            let ck = self.vandermonde.mul_vec_at(&self.tables, &chunks, own_pos - self.d, self.x);
            self.write_chunk(data_slice, ck);
        }
        proof {
            assert forall|sol: Seq<Seq<u8>>|
                grid_wf(sol, os.d as int, os.x as int) && #[trigger] replies_consistent(
                    os,
                    data_slice,
                    replies@,
                    sol,
                ) implies (if os.is_data_node(data_slice as int) {
                self.stored(data_slice as int) == sol[os.my_pos(data_slice as int)]
            } else {
                forall|p: int|
                    0 <= p < os.x ==> self.stored(data_slice as int)[p] == dot(
                        os.tables,
                        os.vandermonde.m()[os.my_pos(data_slice as int) - os.d],
                        col(sol, p),
                    )
            }) by {
                assert forall|qq: int, p: int|
                    0 <= qq < os.d && 0 <= p < os.x implies #[trigger] dot(
                    os.tables,
                    recm[qq],
                    col(sol, p),
                ) == rhs0[qq][p] by {
                    assert(col(sol, p).len() == os.d);
                    if qq < dsl {
                        assert(recm[qq] == unit_row(os.d as int, ds_idx@[qq] as int));
                        lemma_dot_unit(os.tables, os.d as int, ds_idx@[qq] as int, col(sol, p));
                        assert(cpre[qq]@ == sol[ds_idx@[qq] as int]);
                        assert(rhs0[qq] == cpre[qq]@);
                    } else {
                        assert(recm[dsl + (qq - dsl)] == os.vandermonde.m()[cs_idx@[qq
                            - dsl] as int]);
                        assert(cpre[dsl + (qq - dsl)]@ == parity_of(
                            os,
                            cs_idx@[qq - dsl] as int,
                            sol,
                        ));
                        assert(rhs0[dsl + (qq - dsl)] == cpre[dsl + (qq - dsl)]@);
                    }
                }
                assert(solves(os.tables, recm, sol, rhs0, os.x as int));
                assert(good_sol(os.tables, recm, rhs0, os.x as int, sol));
                assert(grid(chunks) == sol);
                if os.is_data_node(data_slice as int) {
                    assert(grid(chunks)[os.my_pos(data_slice as int)] == chunks@[os.my_pos(
                        data_slice as int,
                    )]@);
                } else {
                    assert forall|p: int|
                        0 <= p < os.x implies self.stored(data_slice as int)[p] == parity_of(
                        os,
                        os.my_pos(data_slice as int) - os.d,
                        sol,
                    )[p] by {
                        assert(col(grid(chunks), p) =~= col(sol, p));
                    }
                    assert(self.stored(data_slice as int) =~= parity_of(
                        os,
                        os.my_pos(data_slice as int) - os.d,
                        sol,
                    ));
                }
            }
        }
        Ok(())
    }
}

} // verus!
