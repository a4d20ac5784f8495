//! A single-process engine with an appending interface: each stored slice
//! gets the next free slice number, which `add_data` hands back.

use vstd::prelude::*;

verus! {

use crate::Error;
use crate::matrix::{grid, grid_wf};
use crate::raid::RAID;
use crate::raid::controller::{Controller, count_online, mds_matrix, raw_slot};

/// The appending single-process engine.
pub struct SingleServer {
    pub inner: Controller,
    pub data_slices: usize,
}

impl SingleServer {
    /// The engine invariant: the inner engine is sound and `data_slices`
    /// is the next free slice.
    pub open spec fn wf(self) -> bool {
        &&& self.inner.inv()
        &&& self.inner.all_online()
        &&& (self.data_slices == self.inner.max_data_slices + 1 || (self.data_slices == 0
            && self.inner.max_data_slices == 0))
    }

    /// Create an engine with `d` data and `c` parity chunks per slice.
    pub fn new(d: usize, c: usize, x: usize) -> (r: Result<Self, Error>)
        requires
            d >= 1,
            x >= 1,
            d + c <= 256,
        ensures
            r.is_ok() ==> {
                let e = r.unwrap();
                &&& e.wf()
                &&& e.inner.d == d
                &&& e.inner.c == c
                &&& e.inner.x == x
                &&& e.data_slices == 0
            },
            (r matches Err(e) ==> e == Error::SingularBasis),
    {
        let inner = Controller::new(d, c, x)?;
        Ok(SingleServer { inner, data_slices: 0 })
    }

    /// Store the next slice; the slice number it was stored under comes
    /// back.
    pub fn add_data(&mut self, data: &Vec<Vec<u8>>) -> (r: usize)
        requires
            old(self).wf(),
            grid_wf(grid(*data), old(self).inner.d as int, old(self).inner.x as int),
            old(self).data_slices + 1 <= usize::MAX,
        ensures
            final(self).wf(),
            final(self).inner.d == old(self).inner.d,
            final(self).inner.c == old(self).inner.c,
            final(self).inner.x == old(self).inner.x,
            final(self).inner.tables == old(self).inner.tables,
            final(self).inner.reed == old(self).inner.reed,
            r == old(self).data_slices,
            final(self).data_slices == r + 1,
            forall|i: int|
                0 <= i < old(self).inner.d ==> final(self).inner.content_of(r as int, i) == grid(
                    *data,
                )[i],
            forall|s: int, i: int|
                s != r ==> final(self).inner.content_of(s, i) == old(self).inner.content_of(s, i),
    {
        let slice = self.data_slices;
        self.inner.add_data(data, slice);
        proof {
            assert forall|s: int, i: int| s != slice implies #[trigger] self.inner.content_of(s, i)
                == old(self).inner.content_of(s, i) by {
                assert(self.inner.content_at(s, i) == old(self).inner.content_at(s, i));
            }
            assert forall|i: int| 0 <= i < old(self).inner.d implies #[trigger] self.inner.content_of(
                slice as int,
                i,
            ) == grid(*data)[i] by {
                assert(self.inner.content_at(slice as int, i) == grid(*data)[i]);
            }
        }
        self.data_slices = slice + 1;
        slice
    }

    /// Read one data chunk of a stored slice.
    pub fn read_data_at(&self, data_slice: usize, data_idx: usize) -> (r: Result<Vec<u8>, Error>)
        requires
            self.wf(),
            data_idx < self.inner.d,
        ensures
            r.is_ok() <==> data_slice <= self.inner.max_data_slices,
            r.is_ok() ==> r.unwrap()@ == self.inner.content_of(data_slice as int, data_idx as int),
            r.is_err() ==> r.unwrap_err() == Error::OutOfRange,
    {
        self.inner.read_data_at(data_slice, data_idx)
    }

    /// Read all data chunks of a stored slice.
    pub fn read_data(&self, data_slice: usize) -> (r: Result<Vec<Vec<u8>>, Error>)
        requires
            self.wf(),
        ensures
            r.is_ok() <==> data_slice <= self.inner.max_data_slices,
            r.is_ok() ==> grid_wf(grid(r.unwrap()), self.inner.d as int, self.inner.x as int),
            r.is_ok() ==> forall|i: int|
                0 <= i < self.inner.d ==> grid(r.unwrap())[i] == self.inner.content_of(
                    data_slice as int,
                    i,
                ),
            r.is_err() ==> r.unwrap_err() == Error::OutOfRange,
    {
        self.inner.read_data(data_slice)
    }

    /// Read parity chunk `check_idx` of a stored slice.
    pub fn read_checksum_at(&self, data_slice: usize, check_idx: usize) -> (r: Vec<u8>)
        requires
            self.wf(),
            check_idx < self.inner.c,
            data_slice <= self.inner.max_data_slices,
        ensures
            r@ == self.inner.parity_spec(data_slice as int, check_idx as int),
    {
        self.inner.read_checksum_at(data_slice, check_idx)
    }

    /// Read all parity chunks of a stored slice.
    pub fn read_checksum(&self, data_slice: usize) -> (r: Vec<Vec<u8>>)
        requires
            self.wf(),
            data_slice <= self.inner.max_data_slices,
        ensures
            r@.len() == self.inner.c,
            forall|k: int|
                0 <= k < self.inner.c ==> (#[trigger] r@[k])@ == self.inner.parity_spec(
                    data_slice as int,
                    k,
                ),
    {
        self.inner.read_checksum(data_slice)
    }

    /// Overwrite one data chunk of a stored slice.
    pub fn update_data(&mut self, data: &Vec<u8>, data_slice: usize, data_idx: usize)
        requires
            old(self).wf(),
            data@.len() == old(self).inner.x,
            data_idx < old(self).inner.d,
            data_slice <= old(self).inner.max_data_slices,
        ensures
            final(self).wf(),
            final(self).inner.d == old(self).inner.d,
            final(self).inner.c == old(self).inner.c,
            final(self).inner.x == old(self).inner.x,
            final(self).inner.tables == old(self).inner.tables,
            final(self).inner.reed == old(self).inner.reed,
            final(self).data_slices == old(self).data_slices,
            final(self).inner.max_data_slices == old(self).inner.max_data_slices,
            final(self).inner.content_of(data_slice as int, data_idx as int) == data@,
            forall|s: int, i: int|
                s != data_slice || i != data_idx ==> final(self).inner.content_of(s, i) == old(
                    self,
                ).inner.content_of(s, i),
    {
        self.inner.update_data(data, data_slice, data_idx);
        proof {
            assert(self.inner.content_at(data_slice as int, data_idx as int) == data@);
            assert forall|s: int, i: int|
                s != data_slice || i != data_idx implies #[trigger] self.inner.content_of(s, i)
                    == old(self).inner.content_of(s, i) by {
                assert(self.inner.content_at(s, i) == old(self).inner.content_at(s, i));
            }
        }
    }

    /// Take one device offline and erase it, without recovery.
    pub fn remove_device(&mut self, idx: usize)
        requires
            old(self).wf(),
            idx < old(self).inner.d + old(self).inner.c,
        ensures
            final(self).inner.inv(),
            final(self).inner.d == old(self).inner.d,
            final(self).inner.c == old(self).inner.c,
            final(self).inner.x == old(self).inner.x,
            final(self).inner.tables == old(self).inner.tables,
            final(self).inner.reed == old(self).inner.reed,
            final(self).inner.max_data_slices == old(self).inner.max_data_slices,
            final(self).inner.content == old(self).inner.content,
            final(self).data_slices == old(self).data_slices,
            forall|s: int|
                (#[trigger] raw_slot(final(self).inner.devices@, idx as int, s)) is None,
    {
        self.inner.remove_device(idx);
    }

    /// Rebuild every offline device from the survivors.
    pub fn construct_missing_devices(&mut self) -> (r: Result<(), Error>)
        requires
            old(self).inner.inv(),
            old(self).data_slices == old(self).inner.max_data_slices + 1 || (old(
                self,
            ).data_slices == 0 && old(self).inner.max_data_slices == 0),
        ensures
            r.is_ok() ==> {
                &&& final(self).wf()
                &&& final(self).inner.d == old(self).inner.d
                &&& final(self).inner.c == old(self).inner.c
                &&& final(self).inner.x == old(self).inner.x
                &&& final(self).inner.max_data_slices == old(self).inner.max_data_slices
                &&& final(self).inner.content == old(self).inner.content
                &&& final(self).data_slices == old(self).data_slices
            },
            final(self).inner.tables == old(self).inner.tables,
            final(self).inner.reed == old(self).inner.reed,
            r.is_err() ==> {
                &&& final(self).inner.inv()
                &&& final(self).inner.d == old(self).inner.d
                &&& final(self).inner.c == old(self).inner.c
                &&& final(self).inner.x == old(self).inner.x
                &&& final(self).inner.max_data_slices == old(self).inner.max_data_slices
                &&& final(self).inner.content == old(self).inner.content
                &&& final(self).inner.online == old(self).inner.online
                &&& final(self).data_slices == old(self).data_slices
            },
            r.is_err() ==> (r.unwrap_err() == Error::TooManyLost || r.unwrap_err()
                == Error::SingularMatrix),
            count_online(old(self).inner.online@, old(self).inner.d + old(self).inner.c) < old(
                self,
            ).inner.d ==> r.is_err() && r.unwrap_err() == Error::TooManyLost,
            r.is_err() ==> (r.unwrap_err() == Error::TooManyLost <==> count_online(
                old(self).inner.online@,
                old(self).inner.d + old(self).inner.c,
            ) < old(self).inner.d),
            mds_matrix(
                old(self).inner.tables,
                old(self).inner.reed,
                old(self).inner.d as int,
                old(self).inner.c as int,
            ) && count_online(old(self).inner.online@, old(self).inner.d + old(self).inner.c)
                >= old(self).inner.d ==> r.is_ok(),
            r.is_ok() ==> forall|dv: int, s2: int|
                0 <= dv < old(self).inner.n() && old(self).inner.online@[dv] ==> #[trigger] raw_slot(
                    final(self).inner.devices@,
                    dv,
                    s2,
                ) == raw_slot(old(self).inner.devices@, dv, s2),
            r.is_ok() && old(self).inner.all_online() ==> (forall|s2: int, i2: int|
                0 <= s2 <= old(self).inner.max_data_slices && 0 <= i2 < old(self).inner.d
                    ==> #[trigger] final(self).inner.stored(
                    crate::raid::device_for(old(self).inner.n(), s2, i2),
                    s2,
                ) == old(self).inner.stored(
                    crate::raid::device_for(old(self).inner.n(), s2, i2),
                    s2,
                )) && (forall|s2: int, k2: int|
                0 <= s2 <= old(self).inner.max_data_slices && 0 <= k2 < old(self).inner.c
                    ==> #[trigger] final(self).inner.stored(
                    crate::raid::device_for(old(self).inner.n(), s2, old(self).inner.d + k2),
                    s2,
                ) == old(self).inner.stored(
                    crate::raid::device_for(old(self).inner.n(), s2, old(self).inner.d + k2),
                    s2,
                )),
    {
        self.inner.construct_missing_devices()
    }

    /// Destroy the listed devices and recover them.  On success every
    /// chunk is restored bit for bit.
    pub fn destroy_devices(&mut self, dev_idxs: &Vec<usize>) -> (r: Result<(), Error>)
        requires
            old(self).wf(),
            forall|i: int|
                0 <= i < dev_idxs@.len() ==> (#[trigger] dev_idxs@[i]) < old(self).inner.d + old(
                    self,
                ).inner.c,
        ensures
            r.is_ok() ==> {
                &&& final(self).wf()
                &&& final(self).inner.d == old(self).inner.d
                &&& final(self).inner.c == old(self).inner.c
                &&& final(self).inner.x == old(self).inner.x
                &&& final(self).inner.max_data_slices == old(self).inner.max_data_slices
                &&& final(self).data_slices == old(self).data_slices
                &&& forall|s: int, i: int|
                    final(self).inner.content_of(s, i) == old(self).inner.content_of(s, i)
            },
            final(self).inner.tables == old(self).inner.tables,
            final(self).inner.reed == old(self).inner.reed,
            r.is_err() ==> {
                &&& final(self).inner.inv()
                &&& final(self).inner.d == old(self).inner.d
                &&& final(self).inner.c == old(self).inner.c
                &&& final(self).inner.x == old(self).inner.x
                &&& final(self).inner.max_data_slices == old(self).inner.max_data_slices
                &&& final(self).data_slices == old(self).data_slices
                &&& forall|s: int, i: int|
                    final(self).inner.content_of(s, i) == old(self).inner.content_of(s, i)
            },
            r.is_err() ==> (r.unwrap_err() == Error::TooManyLost || r.unwrap_err()
                == Error::SingularMatrix),
            (old(self).inner.recoverable() && dev_idxs@.len() <= old(self).inner.c && (forall|
                k1: int,
                k2: int,
            |
                0 <= k1 < k2 < dev_idxs@.len() ==> (#[trigger] dev_idxs@[k1]) != (
                #[trigger] dev_idxs@[k2]))) ==> r.is_ok(),
    {
        let r = self.inner.destroy_devices(dev_idxs);
        proof {
            assert forall|s: int, i: int| true implies #[trigger] self.inner.content_of(s, i)
                == old(self).inner.content_of(s, i) by {
                assert(self.inner.content_at(s, i) == old(self).inner.content_at(s, i));
            }
        }
        r
    }
}

} // verus!
