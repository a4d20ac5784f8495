//! The abstract contract of the erasure-coded block layer.
//!
//! An engine stores slices of D data chunks of X bytes each, plus C parity
//! chunks, across D + C devices, and survives the loss of up to C devices.
//! The contract is stated over the engine's logical content: the map from
//! (slice, data position) to the chunk last written there, with positions
//! never written holding zeroes.

pub mod controller;
pub mod distributed;

use vstd::prelude::*;

verus! {

use crate::Error;
use crate::galois::GfTables;
use crate::matrix::{Matrix, grid, grid_wf};

/// The all-zeroes chunk of `x` bytes.
pub open spec fn zero_seq(x: int) -> Seq<u8> {
    Seq::new(x as nat, |i: int| 0u8)
}

/// The device that holds in-slice position `i` of slice `s`, out of `n`
/// devices: the diagonal rotation `(i + s) mod n`.
pub open spec fn device_for(n: int, s: int, i: int) -> int {
    (i + s) % n
}

/// Distinct in-slice positions of one slice land on distinct devices, so
/// the n chunks of a slice live on n distinct devices.
pub proof fn lemma_placement_disjoint(n: int, s: int, i: int, j: int)
    requires
        n >= 1,
        0 <= i < n,
        0 <= j < n,
        i != j,
        s >= 0,
    ensures
        device_for(n, s, i) != device_for(n, s, j),
{
    vstd::arithmetic::div_mod::lemma_fundamental_div_mod(i + s, n);
    vstd::arithmetic::div_mod::lemma_fundamental_div_mod(j + s, n);
    let qi = (i + s) / n;
    let qj = (j + s) / n;
    if (i + s) % n == (j + s) % n {
        assert(n * qi - n * qj == i - j);
        assert(n * (qi - qj) == i - j) by (nonlinear_arith)
            requires
                n * qi - n * qj == i - j,
        ;
        assert(qi != qj);
        assert(qi > qj ==> n * (qi - qj) >= n) by (nonlinear_arith)
            requires
                n >= 1,
        ;
        assert(qj > qi ==> n * (qi - qj) <= -n) by (nonlinear_arith)
            requires
                n >= 1,
        ;
    }
}

/// Compute the device for (slice, position) among `n` devices.
pub fn device_for_exec(n: usize, data_slice: usize, i: usize) -> (r: usize)
    requires
        1 <= n <= 256,
        i < n,
    ensures
        r == device_for(n as int, data_slice as int, i as int),
        r < n,
{
    proof {
        vstd::arithmetic::div_mod::lemma_add_mod_noop(i as int, data_slice as int, n as int);
        vstd::arithmetic::div_mod::lemma_small_mod(i as nat, n as nat);
        vstd::arithmetic::div_mod::lemma_mod_division_less_than_divisor(
            (i as int) + ((data_slice as int) % (n as int)),
            n as int,
        );
    }
    (i + data_slice % n) % n
}

/// The RAID contract: what the file mapper relies on.
///
/// `content_at(s, i)` is the engine's logical data: the chunk last written
/// at data position `i` of slice `s`, or zeroes if that position was never
/// written.  It is unaffected by device loss; recovery restores the stored
/// bytes to match it again.
pub trait RAID: Sized {
    /// Number of data chunks per slice.
    spec fn d_spec(&self) -> int;

    /// Number of parity chunks per slice.
    spec fn c_spec(&self) -> int;

    /// Chunk size in bytes.
    spec fn x_spec(&self) -> int;

    /// The engine's invariant.
    spec fn wf(&self) -> bool;

    /// Every device is online: no destruction is pending recovery.
    spec fn whole(&self) -> bool;

    /// The highest slice index seen by a write.
    spec fn max_slice(&self) -> int;

    /// The logical chunk at data position `i` of slice `s`.
    spec fn content_at(&self, s: int, i: int) -> Seq<u8>;

    /// The erasure code can rebuild the chunks of any combination of lost
    /// devices from the survivors: every recovery system it assembles is
    /// solvable.  This is the code's MDS property; recovery is owed under
    /// it.
    spec fn recoverable(&self) -> bool;

    /// The fixed erasure code of the engine: its field tables and parity
    /// matrix.  Writes, reads and recovery never change it, so parity
    /// chunks are never silently re-encoded.
    spec fn code(&self) -> (GfTables, Matrix);

    /// The number of data chunks per slice, as a value.
    fn d_exec(&self) -> (r: usize)
        ensures
            r == self.d_spec(),
    ;

    /// The chunk size in bytes, as a value.
    fn x_exec(&self) -> (r: usize)
        ensures
            r == self.x_spec(),
    ;

    /// Every logical chunk has exactly `x` bytes.
    proof fn content_wf(&self, s: int, i: int)
        requires
            self.wf(),
        ensures
            self.content_at(s, i).len() == self.x_spec(),
    ;

    /// Create an engine with `d` data chunks and `c` parity chunks per
    /// slice, of `x` bytes each.  The owed clause `r.is_ok()` is not
    /// stated: construction fails only if the code's run-time
    /// self-validation fails, which a correct field polynomial and
    /// Vandermonde base rule out.
    fn new(d: usize, c: usize, x: usize) -> (r: Result<Self, Error>)
        requires
            d >= 1,
            x >= 1,
            d + c <= 256,
        ensures
            r.is_ok() ==> {
                let e = r.unwrap();
                &&& e.wf()
                &&& e.whole()
                &&& e.d_spec() == d
                &&& e.c_spec() == c
                &&& e.x_spec() == x
                &&& e.max_slice() == 0
                &&& forall|s: int, i: int| e.content_at(s, i) == zero_seq(x as int)
            },
            (r matches Err(e) ==> e == Error::SingularBasis),
    ;

    /// Store a whole slice of `d` data chunks.
    fn add_data(&mut self, data: &Vec<Vec<u8>>, data_slice: usize)
        requires
            old(self).wf(),
            old(self).whole(),
            grid_wf(grid(*data), old(self).d_spec(), old(self).x_spec()),
            data_slice + 1 <= usize::MAX,
        ensures
            final(self).wf(),
            final(self).whole(),
            final(self).d_spec() == old(self).d_spec(),
            final(self).c_spec() == old(self).c_spec(),
            final(self).x_spec() == old(self).x_spec(),
            final(self).code() == old(self).code(),
            final(self).max_slice() == if data_slice > old(self).max_slice() {
                data_slice as int
            } else {
                old(self).max_slice()
            },
            forall|i: int|
                0 <= i < old(self).d_spec() ==> final(self).content_at(data_slice as int, i) == grid(
                    *data,
                )[i],
            forall|s: int, i: int|
                s != data_slice ==> final(self).content_at(s, i) == old(self).content_at(s, i),
    ;

    /// Store one data chunk at a position never written before.
    fn add_data_at(&mut self, data: &Vec<u8>, data_slice: usize, data_idx: usize)
        requires
            old(self).wf(),
            old(self).whole(),
            data@.len() == old(self).x_spec(),
            data_idx < old(self).d_spec(),
            data_slice + 1 <= usize::MAX,
            old(self).content_at(data_slice as int, data_idx as int) == zero_seq(old(self).x_spec()),
        ensures
            final(self).wf(),
            final(self).whole(),
            final(self).d_spec() == old(self).d_spec(),
            final(self).c_spec() == old(self).c_spec(),
            final(self).x_spec() == old(self).x_spec(),
            final(self).code() == old(self).code(),
            final(self).max_slice() == if data_slice > old(self).max_slice() {
                data_slice as int
            } else {
                old(self).max_slice()
            },
            final(self).content_at(data_slice as int, data_idx as int) == data@,
            forall|s: int, i: int|
                s != data_slice || i != data_idx ==> final(self).content_at(s, i) == old(
                    self,
                ).content_at(s, i),
    ;

    /// Read one data chunk.  Fails with `OutOfRange` exactly on slices
    /// beyond the highest slice seen.
    fn read_data_at(&self, data_slice: usize, data_idx: usize) -> (r: Result<Vec<u8>, Error>)
        requires
            self.wf(),
            self.whole(),
            data_idx < self.d_spec(),
        ensures
            r.is_ok() <==> data_slice <= self.max_slice(),
            r.is_ok() ==> r.unwrap()@ == self.content_at(data_slice as int, data_idx as int),
            r.is_err() ==> r.unwrap_err() == Error::OutOfRange,
    ;

    /// Read the `d` data chunks of a slice.
    fn read_data(&self, data_slice: usize) -> (r: Result<Vec<Vec<u8>>, Error>)
        requires
            self.wf(),
            self.whole(),
        ensures
            r.is_ok() <==> data_slice <= self.max_slice(),
            r.is_ok() ==> grid_wf(grid(r.unwrap()), self.d_spec(), self.x_spec()),
            r.is_ok() ==> forall|i: int|
                0 <= i < self.d_spec() ==> grid(r.unwrap())[i] == self.content_at(
                    data_slice as int,
                    i,
                ),
            r.is_err() ==> r.unwrap_err() == Error::OutOfRange,
    ;

    /// Overwrite one data chunk of an existing slice, maintaining parity
    /// incrementally.
    fn update_data(&mut self, data: &Vec<u8>, data_slice: usize, data_idx: usize)
        requires
            old(self).wf(),
            old(self).whole(),
            data@.len() == old(self).x_spec(),
            data_idx < old(self).d_spec(),
            data_slice <= old(self).max_slice(),
        ensures
            final(self).wf(),
            final(self).whole(),
            final(self).d_spec() == old(self).d_spec(),
            final(self).c_spec() == old(self).c_spec(),
            final(self).x_spec() == old(self).x_spec(),
            final(self).code() == old(self).code(),
            final(self).max_slice() == old(self).max_slice(),
            final(self).content_at(data_slice as int, data_idx as int) == data@,
            forall|s: int, i: int|
                s != data_slice || i != data_idx ==> final(self).content_at(s, i) == old(
                    self,
                ).content_at(s, i),
    ;

    /// Destroy the listed devices, then recover them.  On success the
    /// logical content is untouched: every chunk is rebuilt bit for bit.
    /// On failure the engine still stands degraded but sound: the
    /// invariant and the logical content are unchanged, only some devices
    /// are still offline.
    fn destroy_devices(&mut self, dev_idxs: &Vec<usize>) -> (r: Result<(), Error>)
        requires
            old(self).wf(),
            old(self).whole(),
            forall|i: int|
                0 <= i < dev_idxs@.len() ==> (#[trigger] dev_idxs@[i]) < old(self).d_spec()
                    + old(self).c_spec(),
        ensures
            r.is_ok() ==> {
                &&& final(self).wf()
                &&& final(self).whole()
                &&& final(self).d_spec() == old(self).d_spec()
                &&& final(self).c_spec() == old(self).c_spec()
                &&& final(self).x_spec() == old(self).x_spec()
                &&& final(self).max_slice() == old(self).max_slice()
                &&& forall|s: int, i: int|
                    final(self).content_at(s, i) == old(self).content_at(s, i)
            },
            final(self).code() == old(self).code(),
            r.is_err() ==> {
                &&& final(self).wf()
                &&& final(self).d_spec() == old(self).d_spec()
                &&& final(self).c_spec() == old(self).c_spec()
                &&& final(self).x_spec() == old(self).x_spec()
                &&& final(self).max_slice() == old(self).max_slice()
                &&& forall|s: int, i: int|
                    final(self).content_at(s, i) == old(self).content_at(s, i)
            },
            r.is_err() ==> (r.unwrap_err() == Error::TooManyLost || r.unwrap_err()
                == Error::SingularMatrix),
            (old(self).recoverable() && dev_idxs@.len() <= old(self).c_spec() && (forall|
                k1: int,
                k2: int,
            |
                0 <= k1 < k2 < dev_idxs@.len() ==> (#[trigger] dev_idxs@[k1]) != (
                #[trigger] dev_idxs@[k2]))) ==> r.is_ok(),
    ;

    /// Release the engine.
    fn shutdown(self) {
    }
}

} // verus!
