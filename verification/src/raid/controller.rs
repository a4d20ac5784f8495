//! The single-process engine: all devices under one controller.
//!
//! Each device is an in-memory store of one optional chunk per slice.
//! Writes compute parity synchronously; destroying devices triggers a
//! synchronous recovery that solves for the lost chunks from any D
//! surviving chunks of each slice.

use vstd::prelude::*;

verus! {

use crate::Error;
use crate::galois;
use crate::galois::GfTables;
use crate::matrix::{
    Matrix, col, copy_row, dot, grid, grid_wf, lemma_dot_from_update, lemma_dot_from_zero_vals,
    lemma_dot_unit, good_sol, solves, unit_row, xor_rows, xor_seq, scale_seq, zero_chunk,
};
use crate::raid::{RAID, device_for, device_for_exec, lemma_placement_disjoint, zero_seq};

/// One optional stored chunk per slice, per device.
pub type DeviceStore = Vec<Option<Vec<u8>>>;

/// The chunk slot of device `dev` at slice `s`, `None` when nothing is
/// stored there.
pub open spec fn raw_slot(devs: Seq<DeviceStore>, dev: int, s: int) -> Option<Vec<u8>> {
    if 0 <= s < devs[dev]@.len() {
        devs[dev]@[s]
    } else {
        None
    }
}

/// Store a chunk at slice `s` of device `dev`, growing the store with
/// empty slots as needed.
fn put_slot(devs: &mut Vec<DeviceStore>, dev: usize, s: usize, ch: Vec<u8>)
    requires
        dev < old(devs)@.len(),
        s + 1 <= usize::MAX,
    ensures
        final(devs)@.len() == old(devs)@.len(),
        forall|dv: int| 0 <= dv < old(devs)@.len() && dv != dev ==> final(devs)@[dv] == old(devs)@[dv],
        raw_slot(final(devs)@, dev as int, s as int) == Some(ch),
        forall|dv: int, s2: int|
            0 <= dv < old(devs)@.len() && (dv != dev || s2 != s) ==> #[trigger] raw_slot(
                final(devs)@,
                dv,
                s2,
            ) == raw_slot(old(devs)@, dv, s2),
{
    let ghost orig = devs@;
    while devs[dev].len() < s + 1
        invariant
            dev < devs@.len(),
            devs@.len() == orig.len(),
            s + 1 <= usize::MAX,
            forall|dv: int| 0 <= dv < orig.len() && dv != dev ==> devs@[dv] == orig[dv],
            devs@[dev as int]@.len() >= orig[dev as int]@.len(),
            forall|k: int|
                0 <= k < orig[dev as int]@.len() ==> devs@[dev as int]@[k] == orig[dev as int]@[k],
            forall|k: int|
                orig[dev as int]@.len() <= k < devs@[dev as int]@.len() ==> devs@[dev as int]@[k]
                    is None,
        decreases s + 1 - devs@[dev as int]@.len(),
    {
        let row = vstd::std_specs::vec::vec_index_mut(devs, dev);
        row.push(None);
    }
    let row = vstd::std_specs::vec::vec_index_mut(devs, dev);
    if row.len() > s {
        row[s] = Some(ch);
    }
    proof {
        assert forall|dv: int, s2: int|
            0 <= dv < orig.len() && (dv != dev || s2 != s) implies #[trigger] raw_slot(
            devs@,
            dv,
            s2,
        ) == raw_slot(orig, dv, s2) by {
            if dv == dev as int {
                if 0 <= s2 < orig[dev as int]@.len() {
                    assert(devs@[dev as int]@[s2] == orig[dev as int]@[s2]);
                } else if 0 <= s2 < devs@[dev as int]@.len() {
                    assert(devs@[dev as int]@[s2] is None);
                }
            }
        }
    }
}

/// Read the chunk stored at slice `s` of device `dev`, as bytes; an empty
/// slot reads as `x` zero bytes.
fn get_stored(devs: &Vec<DeviceStore>, dev: usize, s: usize, x: usize) -> (r: Vec<u8>)
    requires
        dev < devs@.len(),
        raw_slot(devs@, dev as int, s as int) matches Some(ch) ==> ch@.len() == x,
    ensures
        r@ == (match raw_slot(devs@, dev as int, s as int) {
            Some(ch) => ch@,
            None => zero_seq(x as int),
        }),
        r@.len() == x,
{
    let row = &devs[dev];
    if s < row.len() {
        match &row[s] {
            Some(ch) => {
                let r = copy_row(ch);
                proof {
                    assert(raw_slot(devs@, dev as int, s as int) == Some(*ch));
                }
                r
            },
            None => {
                let r = zero_chunk(x);
                proof {
                    assert(r@ =~= zero_seq(x as int));
                }
                r
            },
        }
    } else {
        let r = zero_chunk(x);
        proof {
            assert(r@ =~= zero_seq(x as int));
        }
        r
    }
}

/// The chunk last written at data position `i` of slice `s` in content
/// map `m`, zeroes if none.
pub open spec fn content_fn(m: Map<(int, int), Seq<u8>>, x: int, s: int, i: int) -> Seq<u8> {
    if m.contains_key((s, i)) {
        m[(s, i)]
    } else {
        zero_seq(x)
    }
}

/// The logical data chunks of slice `s`, as a row of `d` chunks.
pub open spec fn data_row_fn(m: Map<(int, int), Seq<u8>>, d: int, x: int, s: int) -> Seq<Seq<u8>> {
    Seq::new(d as nat, |i: int| content_fn(m, x, s, i))
}

/// Parity chunk `k` of slice `s`: row `k` of the parity matrix applied to
/// the slice's logical data.
pub open spec fn parity_fn(
    t: GfTables,
    v: Matrix,
    m: Map<(int, int), Seq<u8>>,
    d: int,
    x: int,
    s: int,
    k: int,
) -> Seq<u8> {
    Seq::new(x as nat, |p: int| dot(t, v.m()[k], col(data_row_fn(m, d, x, s), p)))
}

/// How many of the first `upto` devices are online.
pub open spec fn count_online(flags: Seq<bool>, upto: int) -> int
    decreases upto,
{
    if upto <= 0 {
        0
    } else {
        count_online(flags, upto - 1) + (if flags[upto - 1] {
            1int
        } else {
            0int
        })
    }
}

/// How many devices in `[a, b)` are online.
pub open spec fn count_range(flags: Seq<bool>, a: int, b: int) -> int
    decreases b - a,
{
    if b <= a {
        0
    } else {
        count_range(flags, a, b - 1) + (if flags[b - 1] {
            1int
        } else {
            0int
        })
    }
}

/// How many of the first `k` in-slice positions of slice `s` land on a
/// selected device.
pub open spec fn count_sel(rec: Seq<bool>, n: int, s: int, k: int) -> int
    decreases k,
{
    if k <= 0 {
        0
    } else {
        count_sel(rec, n, s, k - 1) + (if rec[device_for(n, s, k - 1)] {
            1int
        } else {
            0int
        })
    }
}

/// Updating one flag changes the count by exactly that flag's change.
proof fn lemma_count_update(flags: Seq<bool>, i: int, v: bool, k: int)
    requires
        0 <= i < flags.len(),
        k <= flags.len(),
    ensures
        count_online(flags.update(i, v), k) == count_online(flags, k) + (if i < k {
            (if v {
                1int
            } else {
                0int
            }) - (if flags[i] {
                1int
            } else {
                0int
            })
        } else {
            0int
        }),
    decreases k,
{
    if k > 0 {
        lemma_count_update(flags, i, v, k - 1);
    }
}

/// All-true flags count their length.
proof fn lemma_count_all_true(flags: Seq<bool>, k: int)
    requires
        forall|j: int| 0 <= j < k ==> #[trigger] flags[j],
    ensures
        count_online(flags, k) == (if k >= 0 {
            k
        } else {
            0int
        }),
    decreases k,
{
    if k > 0 {
        lemma_count_all_true(flags, k - 1);
    }
}

/// Counting a prefix depends only on the prefix.
proof fn lemma_count_prefix(a: Seq<bool>, b: Seq<bool>, k: int)
    requires
        forall|j: int| 0 <= j < k ==> #[trigger] a[j] == b[j],
    ensures
        count_online(a, k) == count_online(b, k),
    decreases k,
{
    if k > 0 {
        lemma_count_prefix(a, b, k - 1);
    }
}

/// `count_online` counts the prefix range.
proof fn lemma_count_is_range(flags: Seq<bool>, k: int)
    ensures
        count_online(flags, k) == count_range(flags, 0, k),
    decreases k,
{
    if k > 0 {
        lemma_count_is_range(flags, k - 1);
    }
}

/// Counting over `[a, b)` splits at any point in between.
proof fn lemma_count_range_split(flags: Seq<bool>, a: int, m: int, b: int)
    requires
        a <= m <= b,
    ensures
        count_range(flags, a, b) == count_range(flags, a, m) + count_range(flags, m, b),
    decreases b - m,
{
    if m < b {
        lemma_count_range_split(flags, a, m, b - 1);
    }
}

/// The first `k` positions of a slice land on the device block that
/// starts at the slice's rotation offset, wrapping once at `n`.
#[verifier::rlimit(50)]
proof fn lemma_count_sel_blocks(rec: Seq<bool>, n: int, s: int, k: int)
    requires
        1 <= n,
        0 <= s,
        0 <= k <= n,
    ensures
        count_sel(rec, n, s, k) == (if k <= n - s % n {
            count_range(rec, s % n, s % n + k)
        } else {
            count_range(rec, s % n, n) + count_range(rec, 0, k - (n - s % n))
        }),
    decreases k,
{
    let r = s % n;
    vstd::arithmetic::div_mod::lemma_mod_division_less_than_divisor(s, n);
    if k > 0 {
        lemma_count_sel_blocks(rec, n, s, k - 1);
        // where position k-1 lands
        vstd::arithmetic::div_mod::lemma_add_mod_noop_right(k - 1, s, n);
        if k - 1 + r < n {
            vstd::arithmetic::div_mod::lemma_small_mod((k - 1 + r) as nat, n as nat);
            assert(device_for(n, s, k - 1) == k - 1 + r);
        } else {
            vstd::arithmetic::div_mod::lemma_mod_multiples_vanish(1, k - 1 + r - n, n);
            vstd::arithmetic::div_mod::lemma_small_mod((k - 1 + r - n) as nat, n as nat);
            assert(device_for(n, s, k - 1) == k - 1 + r - n);
        }
    }
}

/// Every slice meets the selected devices in exactly as many positions as
/// there are selected devices.
proof fn lemma_count_sel_total(rec: Seq<bool>, n: int, s: int)
    requires
        1 <= n,
        0 <= s,
    ensures
        count_sel(rec, n, s, n) == count_online(rec, n),
{
    let r = s % n;
    vstd::arithmetic::div_mod::lemma_mod_division_less_than_divisor(s, n);
    lemma_count_sel_blocks(rec, n, s, n);
    lemma_count_is_range(rec, n);
    if r == 0 {
        assert(count_sel(rec, n, s, n) == count_range(rec, 0, n));
    } else {
        lemma_count_range_split(rec, 0, r, n);
    }
}

/// A sequence of pairwise distinct indices below `lim`.
pub open spec fn distinct_below(xs: Seq<int>, lim: int) -> bool {
    &&& forall|q: int| 0 <= q < xs.len() ==> 0 <= #[trigger] xs[q] < lim
    &&& forall|q1: int, q2: int|
        0 <= q1 < q2 < xs.len() ==> (#[trigger] xs[q1]) != (#[trigger] xs[q2])
}

/// The square system built from surviving positions: identity-selector
/// rows for the surviving data positions, parity-matrix rows for the
/// surviving parity positions.
pub open spec fn recovery_rows(v: Matrix, d: int, ds: Seq<int>, cs: Seq<int>) -> Seq<Seq<u8>> {
    Seq::new(d as nat, |q: int| if q < ds.len() {
        unit_row(d, ds[q])
    } else {
        v.m()[cs[q - ds.len()]]
    })
}

/// The code is MDS: every recovery system assembled from `d` surviving
/// positions has a trivial kernel, so any `d` chunks of a slice determine
/// the data.  This holds of the systematic Reed-Solomon construction over
/// the Vandermonde base (any `d` rows of `[I; V]` are rows of the
/// invertible `A * A_top^-1` with `A` Vandermonde); it is the one theorem
/// this library assumes of its construction rather than proves.  Every
/// recovery-success clause names it as its hypothesis, so the assumption
/// is confined to this predicate.
pub open spec fn mds_matrix(t: GfTables, v: Matrix, d: int, c: int) -> bool {
    forall|ds: Seq<int>, cs: Seq<int>|
        distinct_below(ds, d) && distinct_below(cs, c) && ds.len() + cs.len() == d
            ==> crate::matrix::trivial_kernel(t, #[trigger] recovery_rows(v, d, ds, cs), d)
}

/// A degraded engine whose online devices are untouched from `os`, and
/// whose slots at slices `s` onward are untouched as well, still satisfies
/// the engine invariant.
proof fn lemma_degraded_inv(os: Controller, cur: Controller, s: int)
    requires
        os.inv(),
        0 <= s <= os.max_data_slices + 1,
        cur.d == os.d,
        cur.c == os.c,
        cur.x == os.x,
        cur.tables == os.tables,
        cur.reed == os.reed,
        cur.online == os.online,
        cur.max_data_slices == os.max_data_slices,
        cur.content == os.content,
        cur.devices@.len() == os.n(),
        forall|dv: int, s2: int|
            0 <= dv < os.n() && (os.online@[dv] || s2 >= s) ==> #[trigger] raw_slot(
                cur.devices@,
                dv,
                s2,
            ) == raw_slot(os.devices@, dv, s2),
        forall|dv: int, s2: int|
            (0 <= dv < os.n() && (#[trigger] raw_slot(cur.devices@, dv, s2)) is Some) ==> raw_slot(
                cur.devices@,
                dv,
                s2,
            ).unwrap()@.len() == os.x,
    ensures
        cur.inv(),
{
    assert forall|dv: int, s2: int|
        0 <= dv < cur.n() && s2 > cur.max_data_slices implies (#[trigger] raw_slot(
        cur.devices@,
        dv,
        s2,
    )) is None by {
        assert(s2 >= s);
        assert(raw_slot(cur.devices@, dv, s2) == raw_slot(os.devices@, dv, s2));
    }
    assert forall|s2: int, i2: int|
        0 <= s2 <= cur.max_data_slices && 0 <= i2 < cur.d && cur.online@[device_for(
            cur.n(),
            s2,
            i2,
        )] implies #[trigger] cur.stored(device_for(cur.n(), s2, i2), s2) == cur.content_of(
        s2,
        i2,
    ) by {
        let dv = device_for(os.n(), s2, i2);
        assert(os.online@[dv]);
        assert(raw_slot(cur.devices@, dv, s2) == raw_slot(os.devices@, dv, s2));
        assert(os.stored(dv, s2) == os.content_of(s2, i2));
    }
    assert forall|s2: int, k2: int|
        0 <= s2 <= cur.max_data_slices && 0 <= k2 < cur.c && cur.online@[device_for(
            cur.n(),
            s2,
            cur.d + k2,
        )] implies #[trigger] cur.stored(device_for(cur.n(), s2, cur.d + k2), s2)
        == cur.parity_spec(s2, k2) by {
        let dv = device_for(os.n(), s2, os.d + k2);
        assert(os.online@[dv]);
        assert(raw_slot(cur.devices@, dv, s2) == raw_slot(os.devices@, dv, s2));
        assert(os.stored(dv, s2) == os.parity_spec(s2, k2));
        assert(cur.parity_spec(s2, k2) == os.parity_spec(s2, k2));
    }
}

/// The single-process RAID engine.
pub struct Controller {
    pub d: usize,
    pub c: usize,
    pub x: usize,
    pub tables: GfTables,
    pub reed: Matrix,
    pub devices: Vec<DeviceStore>,
    pub online: Vec<bool>,
    pub max_data_slices: usize,
    pub content: Ghost<Map<(int, int), Seq<u8>>>,
}

impl Controller {
    /// Total number of devices.
    pub open spec fn n(self) -> int {
        self.d + self.c
    }

    /// The logical chunk at data position `i` of slice `s`: the chunk last
    /// written there, zeroes if none.
    pub open spec fn content_of(self, s: int, i: int) -> Seq<u8> {
        content_fn(self.content@, self.x as int, s, i)
    }

    /// What device `dev` stores at slice `s`, with empty slots as zeroes.
    pub open spec fn stored(self, dev: int, s: int) -> Seq<u8> {
        match raw_slot(self.devices@, dev, s) {
            Some(ch) => ch@,
            None => zero_seq(self.x as int),
        }
    }

    /// The logical data chunks of slice `s`, as a row of `d` chunks.
    pub open spec fn data_row(self, s: int) -> Seq<Seq<u8>> {
        data_row_fn(self.content@, self.d as int, self.x as int, s)
    }

    /// Parity chunk `k` of slice `s`, as demanded by the code: row `k` of
    /// the parity matrix applied to the slice's logical data.
    pub open spec fn parity_spec(self, s: int, k: int) -> Seq<u8> {
        parity_fn(
            self.tables,
            self.reed,
            self.content@,
            self.d as int,
            self.x as int,
            s,
            k,
        )
    }

    /// The engine invariant: shapes, and every stored chunk on an online
    /// device agrees with the logical content - data chunks directly,
    /// parity chunks through the code.
    pub open spec fn inv(self) -> bool {
        &&& self.tables.wf()
        &&& self.d >= 1
        &&& self.x >= 1
        &&& self.d + self.c <= 256
        &&& self.max_data_slices < usize::MAX
        &&& self.reed.is_shape(self.c as int, self.d as int)
        &&& self.devices@.len() == self.n()
        &&& self.online@.len() == self.n()
        &&& forall|key: (int, int)|
            self.content@.contains_key(key) ==> (#[trigger] self.content@[key]).len() == self.x
        &&& forall|key: (int, int)|
            self.content@.contains_key(key) ==> 0 <= key.0 <= self.max_data_slices && 0 <= key.1
                < self.d
        &&& forall|dev: int, s: int|
            (0 <= dev < self.n() && (#[trigger] raw_slot(self.devices@, dev, s)) is Some)
                ==> raw_slot(self.devices@, dev, s).unwrap()@.len() == self.x
        &&& forall|dev: int, s: int|
            0 <= dev < self.n() && s > self.max_data_slices ==> (#[trigger] raw_slot(
                self.devices@,
                dev,
                s,
            )) is None
        &&& forall|s: int, i: int|
            0 <= s <= self.max_data_slices && 0 <= i < self.d && self.online@[device_for(
                self.n(),
                s,
                i,
            )] ==> #[trigger] self.stored(device_for(self.n(), s, i), s) == self.content_of(s, i)
        &&& forall|s: int, k: int|
            0 <= s <= self.max_data_slices && 0 <= k < self.c && self.online@[device_for(
                self.n(),
                s,
                self.d + k,
            )] ==> #[trigger] self.stored(device_for(self.n(), s, self.d + k), s)
                == self.parity_spec(s, k)
    }

    /// All devices online.
    pub open spec fn all_online(self) -> bool {
        forall|dev: int| 0 <= dev < self.n() ==> self.online@[dev]
    }

    /// The device that holds (slice, in-slice position).
    pub fn folder_id(&self, data_slice: usize, data_idx: usize) -> (r: usize)
        requires
            1 <= self.n() <= 256,
            data_idx < self.n(),
        ensures
            r == device_for(self.n(), data_slice as int, data_idx as int),
            r < self.n(),
    {
        device_for_exec(self.d + self.c, data_slice, data_idx)
    }

    /// Write one data chunk and fold the change into every parity chunk of
    /// the slice: `new_parity = old_parity + V[k][i] * (new - old)`.
    #[verifier::rlimit(100)]
    fn write_chunk(&mut self, data: &Vec<u8>, data_slice: usize, data_idx: usize)
        requires
            old(self).inv(),
            old(self).all_online(),
            data@.len() == old(self).x,
            data_idx < old(self).d,
            data_slice + 1 <= usize::MAX,
        ensures
            final(self).inv(),
            final(self).all_online(),
            final(self).d == old(self).d,
            final(self).c == old(self).c,
            final(self).x == old(self).x,
            final(self).tables == old(self).tables,
            final(self).reed == old(self).reed,
            final(self).online == old(self).online,
            final(self).max_data_slices == if data_slice > old(self).max_data_slices {
                data_slice as int
            } else {
                old(self).max_data_slices as int
            },
            final(self).content@ == old(self).content@.insert(
                (data_slice as int, data_idx as int),
                data@,
            ),
    {
        let s = data_slice;
        let i = data_idx;
        let n = self.d + self.c;
        let ghost os = *self;
        let dev = self.folder_id(s, i);
        let old_data = get_stored(&self.devices, dev, s, self.x);
        proof {
            assert(raw_slot(self.devices@, dev as int, s as int) is Some
                ==> raw_slot(self.devices@, dev as int, s as int).unwrap()@.len() == self.x);
            if s <= os.max_data_slices {
                assert(os.stored(dev as int, s as int) == os.content_of(s as int, i as int));
            } else {
                assert(raw_slot(os.devices@, dev as int, s as int) is None);
                assert(!os.content@.contains_key((s as int, i as int)));
            }
            assert(old_data@ == os.content_of(s as int, i as int));
        }
        let diff = xor_rows(data, &old_data);
        put_slot(&mut self.devices, dev, s, copy_row(data));
        proof {
            self.content@ = os.content@.insert((s as int, i as int), data@);
        }
        if s > self.max_data_slices {
            self.max_data_slices = s;
        }
        let ghost maxv: int = if s > os.max_data_slices {
            s as int
        } else {
            os.max_data_slices as int
        };
        proof {
            assert forall|i2: int| 0 <= i2 < os.d && i2 != i implies #[trigger] raw_slot(
                self.devices@,
                device_for(n as int, s as int, i2),
                s as int,
            ) == raw_slot(os.devices@, device_for(n as int, s as int, i2), s as int) by {
                lemma_placement_disjoint(n as int, s as int, i2, i as int);
            }
            assert forall|k2: int| 0 <= k2 < os.c implies #[trigger] raw_slot(
                self.devices@,
                device_for(n as int, s as int, os.d + k2),
                s as int,
            ) == raw_slot(os.devices@, device_for(n as int, s as int, os.d + k2), s as int) by {
                lemma_placement_disjoint(n as int, s as int, os.d + k2, i as int);
            }
        }

        let mut k: usize = 0;
        while k < self.c
            invariant
                os.inv(),
                os.all_online(),
                k <= self.c,
                self.d == os.d,
                self.c == os.c,
                self.x == os.x,
                self.tables == os.tables,
                self.reed == os.reed,
                self.online == os.online,
                self.max_data_slices == maxv,
                maxv == if s > os.max_data_slices {
                    s as int
                } else {
                    os.max_data_slices as int
                },
                s + 1 <= usize::MAX,
                i < os.d,
                n == os.d + os.c,
                self.content@ == os.content@.insert((s as int, i as int), data@),
                self.devices@.len() == n,
                data@.len() == os.x,
                old_data@ == os.content_of(s as int, i as int),
                diff@.len() == os.x,
                forall|p: int| 0 <= p < os.x ==> diff@[p] == crate::galois::gf_add(data@[p], old_data@[p]),
                dev == device_for(n as int, s as int, i as int),
                dev < n,
                raw_slot(self.devices@, dev as int, s as int) is Some,
                self.stored(dev as int, s as int) == data@,
                forall|dv: int, s2: int|
                    0 <= dv < n && s2 != s ==> #[trigger] raw_slot(self.devices@, dv, s2)
                        == raw_slot(os.devices@, dv, s2),
                forall|i2: int|
                    0 <= i2 < os.d && i2 != i ==> #[trigger] raw_slot(
                        self.devices@,
                        device_for(n as int, s as int, i2),
                        s as int,
                    ) == raw_slot(os.devices@, device_for(n as int, s as int, i2), s as int),
                forall|k2: int|
                    k <= k2 < os.c ==> #[trigger] raw_slot(
                        self.devices@,
                        device_for(n as int, s as int, os.d + k2),
                        s as int,
                    ) == raw_slot(os.devices@, device_for(n as int, s as int, os.d + k2), s as int),
                forall|k2: int|
                    0 <= k2 < k ==> #[trigger] self.stored(
                        device_for(n as int, s as int, os.d + k2),
                        s as int,
                    ) == self.parity_spec(s as int, k2) && raw_slot(
                        self.devices@,
                        device_for(n as int, s as int, os.d + k2),
                        s as int,
                    ) is Some && raw_slot(
                        self.devices@,
                        device_for(n as int, s as int, os.d + k2),
                        s as int,
                    ).unwrap()@.len() == os.x,
            decreases self.c - k,
        {
            let ghost pre = *self;
            let pdev = self.folder_id(s, self.d + k);
            proof {
                lemma_placement_disjoint(n as int, s as int, i as int, (os.d + k) as int);
                assert forall|k2: int| 0 <= k2 < k implies #[trigger] device_for(
                    n as int,
                    s as int,
                    os.d + k2,
                ) != pdev by {
                    lemma_placement_disjoint(n as int, s as int, (os.d + k2) as int, (os.d
                        + k) as int);
                }
            }
            let old_par = get_stored(&self.devices, pdev, s, self.x);
            proof {
                // the slot is still what the old state held there
                assert(raw_slot(self.devices@, pdev as int, s as int) == raw_slot(
                    os.devices@,
                    pdev as int,
                    s as int,
                ));
                // and that was the parity of the old logical content
                assert(os.online@[pdev as int]);
                if s <= os.max_data_slices {
                    assert(os.stored(pdev as int, s as int) == os.parity_spec(s as int, k as int));
                } else {
                    assert(raw_slot(os.devices@, pdev as int, s as int) is None);
                    assert forall|p: int|
                        0 <= p < os.x implies os.parity_spec(s as int, k as int)[p] == 0 by {
                        let cl = col(os.data_row(s as int), p);
                        assert forall|j: int| 0 <= j < cl.len() implies (#[trigger] cl[j]) == 0 by {
                            assert(!os.content@.contains_key((s as int, j)));
                            assert(os.data_row(s as int)[j] == zero_seq(os.x as int));
                        }
                        assert(os.reed.m()[k as int].len() == os.d);
                        lemma_dot_from_zero_vals(os.tables, os.reed.m()[k as int], cl, 0);
                    }
                    assert(os.stored(pdev as int, s as int) =~= os.parity_spec(
                        s as int,
                        k as int,
                    ));
                }
                assert(old_par@ == os.parity_spec(s as int, k as int));
            }
            let coeff = self.reed.data[k][i];
            proof {
                assert(self.reed.m()[k as int] == self.reed.data@[k as int]@);
                assert(self.reed.m()[k as int].len() == os.d);
            }
            let mut newp = copy_row(&old_par);
            crate::matrix::row_xor_scale(&self.tables, &mut newp, &diff, coeff);
            let ghost pre_put = self.devices@;
            put_slot(&mut self.devices, pdev, s, newp);
            proof {
                // the freshly written parity matches the new logical content
                assert forall|p: int|
                    0 <= p < os.x implies self.stored(pdev as int, s as int)[p]
                    == self.parity_spec(s as int, k as int)[p] by {
                    let row = self.reed.m()[k as int];
                    let cl_old = col(os.data_row(s as int), p);
                    let cl_new = col(self.data_row(s as int), p);
                    assert(cl_new =~= cl_old.update(i as int, data@[p]));
                    lemma_dot_from_update(os.tables, row, cl_old, i as int, data@[p], 0);
                    assert(cl_old[i as int] == os.content_of(s as int, i as int)[p]);
                    assert(old_par@[p] == dot(os.tables, row, cl_old));
                    assert(self.stored(pdev as int, s as int)[p] == crate::galois::gf_add(
                        old_par@[p],
                        crate::galois::gf_mul(os.tables, coeff, diff@[p]),
                    ));
                    assert(coeff == row[i as int]);
                    assert(diff@[p] == crate::galois::gf_add(data@[p], old_data@[p]));
                }
                assert(self.stored(pdev as int, s as int) =~= self.parity_spec(
                    s as int,
                    k as int,
                ));
                // writes at this parity device leave every other slot alone
                assert forall|i2: int| 0 <= i2 < os.d && i2 != i implies #[trigger] raw_slot(
                    self.devices@,
                    device_for(n as int, s as int, i2),
                    s as int,
                ) == raw_slot(os.devices@, device_for(n as int, s as int, i2), s as int) by {
                    lemma_placement_disjoint(n as int, s as int, i2, (os.d + k) as int);
                    assert(raw_slot(pre_put, device_for(n as int, s as int, i2), s as int)
                        == raw_slot(os.devices@, device_for(n as int, s as int, i2), s as int));
                }
                assert forall|k2: int| k + 1 <= k2 < os.c implies #[trigger] raw_slot(
                    self.devices@,
                    device_for(n as int, s as int, os.d + k2),
                    s as int,
                ) == raw_slot(os.devices@, device_for(n as int, s as int, os.d + k2), s as int) by {
                    lemma_placement_disjoint(n as int, s as int, os.d + k2, (os.d + k) as int);
                    assert(raw_slot(pre_put, device_for(n as int, s as int, os.d + k2), s as int)
                        == raw_slot(
                        os.devices@,
                        device_for(n as int, s as int, os.d + k2),
                        s as int,
                    ));
                }
                assert forall|k2: int| 0 <= k2 < k implies #[trigger] self.stored(
                    device_for(n as int, s as int, os.d + k2),
                    s as int,
                ) == self.parity_spec(s as int, k2) && raw_slot(
                    self.devices@,
                    device_for(n as int, s as int, os.d + k2),
                    s as int,
                ) is Some && raw_slot(
                    self.devices@,
                    device_for(n as int, s as int, os.d + k2),
                    s as int,
                ).unwrap()@.len() == os.x by {
                    lemma_placement_disjoint(n as int, s as int, (os.d + k2) as int, (os.d
                        + k) as int);
                    assert(pre.stored(device_for(n as int, s as int, os.d + k2), s as int)
                        == pre.parity_spec(s as int, k2));
                    assert(raw_slot(self.devices@, device_for(n as int, s as int, os.d + k2), s as int)
                        == raw_slot(pre.devices@, device_for(n as int, s as int, os.d + k2), s as int));
                    assert(self.parity_spec(s as int, k2) == pre.parity_spec(s as int, k2));
                }
                lemma_placement_disjoint(n as int, s as int, i as int, (os.d + k) as int);
                assert(raw_slot(self.devices@, dev as int, s as int) == raw_slot(
                    pre_put,
                    dev as int,
                    s as int,
                ));
            }
            k += 1;
        }

        proof {
            // content shape and key bounds
            assert forall|key: (int, int)| self.content@.contains_key(key) implies (
            #[trigger] self.content@[key]).len() == self.x && 0 <= key.0 <= self.max_data_slices && 0
                <= key.1 < self.d by {
                if key != (s as int, i as int) {
                    assert(os.content@.contains_key(key));
                }
            }
            // parity of untouched slices is untouched: the logical content of
            // those slices did not change
            assert forall|s2: int, k2: int| s2 != s && 0 <= k2 < self.c implies #[trigger] self.parity_spec(s2, k2) == os.parity_spec(s2, k2) by {
                assert(self.data_row(s2) =~~= os.data_row(s2));
                assert(self.parity_spec(s2, k2) =~= os.parity_spec(s2, k2));
            }
            assert forall|s2: int, i2: int| (s2 != s || i2 != i) implies #[trigger] self.content_of(
                s2,
                i2,
            ) == os.content_of(s2, i2) by {}
            // the stored-chunk length bound
            assert forall|dv: int, s2: int|
                (0 <= dv < self.n() && (#[trigger] raw_slot(self.devices@, dv, s2)) is Some) implies raw_slot(
                self.devices@,
                dv,
                s2,
            ).unwrap()@.len() == self.x by {
                if s2 != s {
                    assert(raw_slot(self.devices@, dv, s2) == raw_slot(os.devices@, dv, s2));
                } else if dv == dev as int {
                    assert(self.stored(dv, s2) == data@);
                } else {
                    let pos = if dv >= (s as int) % (n as int) {
                        dv - ((s as int) % (n as int))
                    } else {
                        dv + (n as int) - ((s as int) % (n as int))
                    };
                    // every device holds exactly one in-slice position
                    assert(0 <= pos < n);
                    assert(device_for(n as int, s as int, pos) == dv) by {
                        let sm = (s as int) % (n as int);
                        vstd::arithmetic::div_mod::lemma_mod_division_less_than_divisor(
                            s as int,
                            n as int,
                        );
                        vstd::arithmetic::div_mod::lemma_add_mod_noop_right(pos, s as int, n as int);
                        assert((pos + sm) % (n as int) == (pos + s) % (n as int));
                        if dv >= sm {
                            vstd::arithmetic::div_mod::lemma_small_mod(dv as nat, n as nat);
                            assert((pos + sm) % (n as int) == dv);
                        } else {
                            assert(pos + sm == dv + n);
                            vstd::arithmetic::div_mod::lemma_mod_multiples_vanish(
                                1,
                                dv as int,
                                n as int,
                            );
                            vstd::arithmetic::div_mod::lemma_small_mod(dv as nat, n as nat);
                            assert((dv + n) % (n as int) == dv);
                        }
                    }
                    if pos < os.d {
                        if pos == i as int {
                            lemma_placement_disjoint(n as int, s as int, pos, i as int);
                        } else {
                            assert(raw_slot(self.devices@, dv, s2) == raw_slot(os.devices@, dv, s2));
                        }
                    } else {
                        let k2 = pos - os.d;
                        assert(self.stored(device_for(n as int, s as int, os.d + k2), s as int)
                            == self.parity_spec(s as int, k2));
                        assert(raw_slot(
                            self.devices@,
                            device_for(n as int, s as int, os.d + k2),
                            s as int,
                        ).unwrap()@.len() == os.x);
                    }
                }
            }
            // data chunks on every device agree with the logical content
            assert forall|s2: int, i2: int|
                0 <= s2 <= self.max_data_slices && 0 <= i2 < self.d && self.online@[device_for(
                    self.n(),
                    s2,
                    i2,
                )] implies #[trigger] self.stored(device_for(self.n(), s2, i2), s2) == self.content_of(
                s2,
                i2,
            ) by {
                let dv = device_for(self.n(), s2, i2);
                if s2 == s {
                    if i2 == i {
                    } else {
                        lemma_placement_disjoint(n as int, s as int, i2, i as int);
                        assert(raw_slot(self.devices@, dv, s2) == raw_slot(os.devices@, dv, s2));
                        if s <= os.max_data_slices {
                            assert(os.stored(dv, s2) == os.content_of(s2, i2));
                        } else {
                            assert(raw_slot(os.devices@, dv, s2) is None);
                            assert(!os.content@.contains_key((s2, i2)));
                        }
                    }
                } else {
                    assert(raw_slot(self.devices@, dv, s2) == raw_slot(os.devices@, dv, s2));
                    if s2 <= os.max_data_slices {
                        assert(os.stored(dv, s2) == os.content_of(s2, i2));
                    } else {
                        // a slice in the gap below a sparse write: nothing
                        // stored, nothing in the logical content
                        assert(raw_slot(os.devices@, dv, s2) is None);
                        assert(!os.content@.contains_key((s2, i2)));
                    }
                }
            }
            // parity chunks on every device agree with the code
            assert forall|s2: int, k2: int|
                0 <= s2 <= self.max_data_slices && 0 <= k2 < self.c && self.online@[device_for(
                    self.n(),
                    s2,
                    self.d + k2,
                )] implies #[trigger] self.stored(device_for(self.n(), s2, self.d + k2), s2)
                == self.parity_spec(s2, k2) by {
                let dv = device_for(self.n(), s2, self.d + k2);
                if s2 == s {
                    assert(self.stored(device_for(n as int, s as int, os.d + k2), s as int)
                        == self.parity_spec(s as int, k2));
                } else {
                    assert(raw_slot(self.devices@, dv, s2) == raw_slot(os.devices@, dv, s2));
                    if s2 <= os.max_data_slices {
                        assert(os.stored(dv, s2) == os.parity_spec(s2, k2));
                        assert(self.parity_spec(s2, k2) == os.parity_spec(s2, k2));
                    } else {
                        // a slice in the gap below a sparse write: nothing
                        // stored, and the parity of an all-zero slice is zero
                        assert(raw_slot(os.devices@, dv, s2) is None);
                        assert forall|p: int|
                            0 <= p < os.x implies self.parity_spec(s2, k2)[p] == 0 by {
                            let cl = col(self.data_row(s2), p);
                            assert forall|j: int| 0 <= j < cl.len() implies (#[trigger] cl[j])
                                == 0 by {
                                assert(!self.content@.contains_key((s2, j)));
                            }
                            assert(self.reed.m()[k2].len() == os.d);
                            lemma_dot_from_zero_vals(self.tables, self.reed.m()[k2], cl, 0);
                        }
                        assert(self.stored(dv, s2) =~= self.parity_spec(s2, k2));
                    }
                }
            }
        }
    }

    /// Read parity chunk `check_idx` of a slice.  What comes back is
    /// exactly the code's demand: row `check_idx` of the parity matrix
    /// applied to the slice's logical data.
    pub fn read_checksum_at(&self, data_slice: usize, check_idx: usize) -> (r: Vec<u8>)
        requires
            self.inv(),
            self.all_online(),
            check_idx < self.c,
            data_slice <= self.max_data_slices,
        ensures
            r@ == self.parity_spec(data_slice as int, check_idx as int),
    {
        let dev = self.folder_id(data_slice, self.d + check_idx);
        let r = get_stored(&self.devices, dev, data_slice, self.x);
        proof {
            assert(self.stored(dev as int, data_slice as int) == self.parity_spec(
                data_slice as int,
                check_idx as int,
            ));
        }
        r
    }

    /// Read all `c` parity chunks of a slice.
    pub fn read_checksum(&self, data_slice: usize) -> (r: Vec<Vec<u8>>)
        requires
            self.inv(),
            self.all_online(),
            data_slice <= self.max_data_slices,
        ensures
            r@.len() == self.c,
            forall|k: int|
                0 <= k < self.c ==> (#[trigger] r@[k])@ == self.parity_spec(data_slice as int, k),
    {
        let mut out: Vec<Vec<u8>> = Vec::new();
        let mut k: usize = 0;
        while k < self.c
            invariant
                self.inv(),
                self.all_online(),
                data_slice <= self.max_data_slices,
                k <= self.c,
                out@.len() == k,
                forall|k2: int|
                    0 <= k2 < k ==> (#[trigger] out@[k2])@ == self.parity_spec(
                        data_slice as int,
                        k2,
                    ),
            decreases self.c - k,
        {
            let ck = self.read_checksum_at(data_slice, k);
            out.push(ck);
            k += 1;
        }
        out
    }

    /// Rebuild every offline device from the survivors.  Fails with
    /// `TooManyLost` exactly when fewer than `d` devices are online, and
    /// otherwise only with `SingularMatrix` - and under the code's MDS
    /// property that cannot happen either, so recovery is then owed.  On
    /// success every stored chunk again matches the logical content, bit
    /// for bit; on failure the engine still stands: the invariant, the
    /// logical content, the dimensions and the online flags are all
    /// unchanged, so the recovery can be retried.
    #[verifier::rlimit(100)]
    pub fn construct_missing_devices(&mut self) -> (r: Result<(), Error>)
        requires
            old(self).inv(),
        ensures
            r.is_ok() ==> {
                &&& final(self).inv()
                &&& final(self).all_online()
                &&& final(self).d == old(self).d
                &&& final(self).c == old(self).c
                &&& final(self).x == old(self).x
                &&& final(self).max_data_slices == old(self).max_data_slices
                &&& final(self).content == old(self).content
            },
            final(self).tables == old(self).tables,
            final(self).reed == old(self).reed,
            r.is_err() ==> {
                &&& final(self).inv()
                &&& final(self).d == old(self).d
                &&& final(self).c == old(self).c
                &&& final(self).x == old(self).x
                &&& final(self).max_data_slices == old(self).max_data_slices
                &&& final(self).content == old(self).content
                &&& final(self).online == old(self).online
            },
            r.is_err() ==> (r.unwrap_err() == Error::TooManyLost || r.unwrap_err()
                == Error::SingularMatrix),
            count_online(old(self).online@, old(self).d + old(self).c) < old(self).d ==> r.is_err()
                && r.unwrap_err() == Error::TooManyLost,
            r.is_err() ==> (r.unwrap_err() == Error::TooManyLost <==> count_online(
                old(self).online@,
                old(self).d + old(self).c,
            ) < old(self).d),
            mds_matrix(old(self).tables, old(self).reed, old(self).d as int, old(self).c as int)
                && count_online(old(self).online@, old(self).d + old(self).c) >= old(self).d
                ==> r.is_ok(),
            r.is_ok() ==> forall|dv: int, s2: int|
                0 <= dv < old(self).n() && old(self).online@[dv] ==> #[trigger] raw_slot(
                    final(self).devices@,
                    dv,
                    s2,
                ) == raw_slot(old(self).devices@, dv, s2),
            r.is_ok() && old(self).all_online() ==> (forall|s2: int, i2: int|
                0 <= s2 <= old(self).max_data_slices && 0 <= i2 < old(self).d
                    ==> #[trigger] final(self).stored(device_for(old(self).n(), s2, i2), s2)
                    == old(self).stored(device_for(old(self).n(), s2, i2), s2)) && (forall|
                s2: int,
                k2: int,
            |
                0 <= s2 <= old(self).max_data_slices && 0 <= k2 < old(self).c
                    ==> #[trigger] final(self).stored(
                    device_for(old(self).n(), s2, old(self).d + k2),
                    s2,
                ) == old(self).stored(device_for(old(self).n(), s2, old(self).d + k2), s2)),
    {
        let n = self.d + self.c;
        // Count the online devices.
        let mut count: usize = 0;
        let mut i: usize = 0;
        while i < n
            invariant
                i <= n,
                count <= i,
                self.online@.len() == n,
                count == count_online(self.online@, i as int),
            decreases n - i,
        {
            if self.online[i] {
                count += 1;
            }
            i += 1;
        }
        if count < self.d {
            return Err(Error::TooManyLost);
        }
        proof {
            assert(count_online(self.online@, n as int) >= self.d);
        }

        // Keep the lowest-indexed d online devices as the recovery set.
        let mut recover: Vec<bool> = Vec::new();
        let mut cnt: usize = 0;
        let mut i: usize = 0;
        while i < n
            invariant
                i <= n,
                cnt <= self.d,
                recover@.len() == i,
                self.online@.len() == n,
                forall|j: int| 0 <= j < i ==> (#[trigger] recover@[j] ==> self.online@[j]),
                cnt == (if count_online(self.online@, i as int) < self.d {
                    count_online(self.online@, i as int)
                } else {
                    self.d as int
                }),
                count_online(recover@, i as int) == cnt,
            decreases n - i,
        {
            let ghost prev = recover@;
            if self.online[i] && cnt < self.d {
                recover.push(true);
                cnt += 1;
            } else {
                recover.push(false);
            }
            proof {
                lemma_count_prefix(prev, recover@, i as int);
            }
            i += 1;
        }
        proof {
            // at least d devices are online, so exactly d were selected
            assert(cnt == self.d);
            assert(count_online(recover@, n as int) == self.d);
        }

        let ghost os = *self;
        let mut s: usize = 0;
        while s < self.max_data_slices + 1
            invariant
                os.inv(),
                os == *old(self),
                count_online(os.online@, os.n()) >= os.d,
                count_online(recover@, os.n()) == os.d,
                s <= os.max_data_slices + 1,
                self.d == os.d,
                self.c == os.c,
                self.x == os.x,
                self.tables == os.tables,
                self.reed == os.reed,
                self.online == os.online,
                self.max_data_slices == os.max_data_slices,
                self.content == os.content,
                self.devices@.len() == os.n(),
                recover@.len() == os.n(),
                forall|j: int| 0 <= j < os.n() ==> (#[trigger] recover@[j] ==> os.online@[j]),
                // untouched slots: everything except offline slots of processed slices
                forall|dv: int, s2: int|
                    0 <= dv < os.n() && (os.online@[dv] || s2 >= s) ==> #[trigger] raw_slot(
                        self.devices@,
                        dv,
                        s2,
                    ) == raw_slot(os.devices@, dv, s2),
                // every slot still holds chunks of the right size
                forall|dv: int, s2: int|
                    (0 <= dv < os.n() && (#[trigger] raw_slot(self.devices@, dv, s2)) is Some)
                        ==> raw_slot(self.devices@, dv, s2).unwrap()@.len() == os.x,
                // slots beyond the highest slice stay empty
                forall|dv: int, s2: int|
                    0 <= dv < os.n() && s2 > os.max_data_slices ==> (#[trigger] raw_slot(
                        self.devices@,
                        dv,
                        s2,
                    )) is None,
                // processed slices are fully restored on every device
                forall|s2: int, i2: int|
                    0 <= s2 < s && 0 <= i2 < os.d ==> #[trigger] self.stored(
                        device_for(os.n(), s2, i2),
                        s2,
                    ) == os.content_of(s2, i2),
                forall|s2: int, k2: int|
                    0 <= s2 < s && 0 <= k2 < os.c ==> #[trigger] self.stored(
                        device_for(os.n(), s2, os.d + k2),
                        s2,
                    ) == os.parity_spec(s2, k2),
            decreases os.max_data_slices + 1 - s,
        {
            let ghost sb = *self;
            // Gather the surviving chunks of this slice.
            let mut chunks: Vec<Vec<u8>> = Vec::new();
            let mut ds_idx: Vec<usize> = Vec::new();
            let mut cs_idx: Vec<usize> = Vec::new();
            let mut di: usize = 0;
            while di < self.d
                invariant
                    os.inv(),
                    os == *old(self),
                    count_online(os.online@, os.n()) >= os.d,
                    count_online(recover@, os.n()) == os.d,
                    s <= os.max_data_slices,
                    di <= os.d,
                    self.d == os.d,
                    self.c == os.c,
                    self.x == os.x,
                    self.tables == os.tables,
                    self.reed == os.reed,
                    self.online == os.online,
                    self.content == os.content,
                    self.max_data_slices == os.max_data_slices,
                    self.devices@.len() == os.n(),
                    recover@.len() == os.n(),
                    forall|j: int| 0 <= j < os.n() ==> (#[trigger] recover@[j] ==> os.online@[j]),
                    forall|dv: int, s2: int|
                        0 <= dv < os.n() && (os.online@[dv] || s2 >= s) ==> #[trigger] raw_slot(
                            self.devices@,
                            dv,
                            s2,
                        ) == raw_slot(os.devices@, dv, s2),
                    forall|dv: int, s2: int|
                        (0 <= dv < os.n() && (#[trigger] raw_slot(self.devices@, dv, s2)) is Some)
                            ==> raw_slot(self.devices@, dv, s2).unwrap()@.len() == os.x,
                    chunks@.len() == ds_idx@.len(),
                    ds_idx@.len() == count_sel(recover@, os.n(), s as int, di as int),
                    ds_idx@.len() <= di,
                    cs_idx@.len() == 0,
                    forall|q: int| 0 <= q < ds_idx@.len() ==> (#[trigger] ds_idx@[q]) < os.d,
                    forall|q: int| 0 <= q < ds_idx@.len() ==> (#[trigger] ds_idx@[q]) < di,
                    forall|q1: int, q2: int|
                        0 <= q1 < q2 < ds_idx@.len() ==> (#[trigger] ds_idx@[q1]) < (
                        #[trigger] ds_idx@[q2]),
                    forall|q: int|
                        0 <= q < ds_idx@.len() ==> (#[trigger] chunks@[q])@ == os.content_of(
                            s as int,
                            ds_idx@[q] as int,
                        ) && chunks@[q]@.len() == os.x,
                decreases os.d - di,
            {
                let dev = self.folder_id(s, di);
                if recover[dev] {
                    let ch = get_stored(&self.devices, dev, s, self.x);
                    proof {
                        assert(raw_slot(self.devices@, dev as int, s as int) == raw_slot(
                            os.devices@,
                            dev as int,
                            s as int,
                        ));
                        assert(os.online@[dev as int]);
                        assert(os.stored(dev as int, s as int) == os.content_of(
                            s as int,
                            di as int,
                        ));
                    }
                    chunks.push(ch);
                    ds_idx.push(di);
                }
                di += 1;
            }
            let ghost dsl = ds_idx@.len() as int;
            let mut ci: usize = 0;
            while ci < self.c
                invariant
                    os.inv(),
                    os == *old(self),
                    count_online(os.online@, os.n()) >= os.d,
                    count_online(recover@, os.n()) == os.d,
                    s <= os.max_data_slices,
                    ci <= os.c,
                    self.d == os.d,
                    self.c == os.c,
                    self.x == os.x,
                    self.tables == os.tables,
                    self.reed == os.reed,
                    self.online == os.online,
                    self.content == os.content,
                    self.max_data_slices == os.max_data_slices,
                    self.devices@.len() == os.n(),
                    recover@.len() == os.n(),
                    forall|j: int| 0 <= j < os.n() ==> (#[trigger] recover@[j] ==> os.online@[j]),
                    forall|dv: int, s2: int|
                        0 <= dv < os.n() && (os.online@[dv] || s2 >= s) ==> #[trigger] raw_slot(
                            self.devices@,
                            dv,
                            s2,
                        ) == raw_slot(os.devices@, dv, s2),
                    forall|dv: int, s2: int|
                        (0 <= dv < os.n() && (#[trigger] raw_slot(self.devices@, dv, s2)) is Some)
                            ==> raw_slot(self.devices@, dv, s2).unwrap()@.len() == os.x,
                    dsl == ds_idx@.len(),
                    dsl == count_sel(recover@, os.n(), s as int, os.d as int),
                    dsl + cs_idx@.len() == count_sel(
                        recover@,
                        os.n(),
                        s as int,
                        os.d + ci as int,
                    ),
                    dsl <= os.d,
                    cs_idx@.len() <= ci,
                    chunks@.len() == dsl + cs_idx@.len(),
                    forall|q: int| 0 <= q < ds_idx@.len() ==> (#[trigger] ds_idx@[q]) < os.d,
                    forall|q1: int, q2: int|
                        0 <= q1 < q2 < ds_idx@.len() ==> (#[trigger] ds_idx@[q1]) < (
                        #[trigger] ds_idx@[q2]),
                    forall|q: int| 0 <= q < cs_idx@.len() ==> (#[trigger] cs_idx@[q]) < os.c,
                    forall|q: int| 0 <= q < cs_idx@.len() ==> (#[trigger] cs_idx@[q]) < ci,
                    forall|q1: int, q2: int|
                        0 <= q1 < q2 < cs_idx@.len() ==> (#[trigger] cs_idx@[q1]) < (
                        #[trigger] cs_idx@[q2]),
                    forall|q: int|
                        0 <= q < dsl ==> (#[trigger] chunks@[q])@ == os.content_of(
                            s as int,
                            ds_idx@[q] as int,
                        ) && chunks@[q]@.len() == os.x,
                    forall|q: int|
                        0 <= q < cs_idx@.len() ==> (#[trigger] chunks@[dsl + q])@ == os.parity_spec(
                            s as int,
                            cs_idx@[q] as int,
                        ) && chunks@[dsl + q]@.len() == os.x,
                decreases os.c - ci,
            {
                let dev = self.folder_id(s, self.d + ci);
                if recover[dev] {
                    let ch = get_stored(&self.devices, dev, s, self.x);
                    proof {
                        assert(raw_slot(self.devices@, dev as int, s as int) == raw_slot(
                            os.devices@,
                            dev as int,
                            s as int,
                        ));
                        assert(os.online@[dev as int]);
                        assert(os.stored(dev as int, s as int) == os.parity_spec(
                            s as int,
                            ci as int,
                        ));
                    }
                    chunks.push(ch);
                    cs_idx.push(ci);
                }
                ci += 1;
            }
            proof {
                // the placement is a rotation, so the d selected devices
                // hold exactly d positions of this slice
                lemma_count_sel_total(recover@, os.n(), s as int);
                assert(ds_idx@.len() + cs_idx@.len() == os.d);
            }

            // Solve for the slice's logical data from what survived.
            proof {
                assert(self.reed.m().len() == os.c);
                assert forall|q: int| 0 <= q < self.reed.data@.len() implies (
                #[trigger] self.reed.data@[q])@.len() == ds_idx@.len() + cs_idx@.len() by {
                    assert(self.reed.m()[q].len() == os.d);
                    assert(self.reed.m()[q] == self.reed.data@[q]@);
                }
            }
            let mut rec = self.reed.recovery_matrix(&self.tables, &ds_idx, &cs_idx);
            let ghost recm = rec.m();
            let ghost rhs0 = grid(chunks);
            let ghost sol = os.data_row(s as int);
            proof {
                assert forall|q: int| 0 <= q < os.d implies (#[trigger] sol[q]).len() == os.x by {
                    if os.content@.contains_key((s as int, q)) {
                        assert(os.content@[(s as int, q)].len() == os.x);
                    }
                }
                assert(grid_wf(sol, os.d as int, os.x as int));
                assert forall|q: int, p: int|
                    0 <= q < os.d && 0 <= p < os.x implies #[trigger] dot(
                    os.tables,
                    recm[q],
                    col(sol, p),
                ) == rhs0[q][p] by {
                    assert(col(sol, p).len() == os.d);
                    if q < dsl {
                        assert(recm[q] == unit_row(os.d as int, ds_idx@[q] as int));
                        lemma_dot_unit(os.tables, os.d as int, ds_idx@[q] as int, col(sol, p));
                        assert(col(sol, p)[ds_idx@[q] as int] == sol[ds_idx@[q] as int][p]);
                        assert(chunks@[q]@ == os.content_of(s as int, ds_idx@[q] as int));
                        assert(rhs0[q] == chunks@[q]@);
                    } else {
                        let k2 = cs_idx@[q - dsl] as int;
                        assert(recm[dsl + (q - dsl)] == os.reed.m()[cs_idx@[q - dsl] as int]);
                        assert(chunks@[dsl + (q - dsl)]@ == os.parity_spec(
                            s as int,
                            cs_idx@[q - dsl] as int,
                        ));
                        assert(recm[q] == os.reed.m()[k2]);
                        assert(chunks@[q]@ == os.parity_spec(s as int, k2));
                        assert(os.parity_spec(s as int, k2)[p] == dot(
                            os.tables,
                            os.reed.m()[k2],
                            col(os.data_row(s as int), p),
                        ));
                        assert(rhs0[q] == chunks@[q]@);
                    }
                }
                assert(solves(os.tables, recm, sol, rhs0, os.x as int));
                assert(good_sol(os.tables, recm, rhs0, os.x as int, sol));
                assert forall|q: int| 0 <= q < os.d implies (#[trigger] grid(chunks)[q]).len()
                    == os.x by {
                    assert(grid(chunks)[q] == chunks@[q]@);
                    if q < dsl {
                        assert(chunks@[q]@.len() == os.x);
                    } else {
                        assert(chunks@[dsl + (q - dsl)]@.len() == os.x);
                    }
                }
            }
            let res = rec.gaussian_elimination(&self.tables, &mut chunks, self.x);
            if res.is_err() {
                proof {
                    lemma_degraded_inv(os, *self, s as int);
                    // under the MDS hypothesis the assembled system has a
                    // trivial kernel, so the elimination cannot have failed
                    if mds_matrix(os.tables, os.reed, os.d as int, os.c as int) {
                        let dsi = Seq::new(ds_idx@.len() as nat, |q: int| ds_idx@[q] as int);
                        let csi = Seq::new(cs_idx@.len() as nat, |q: int| cs_idx@[q] as int);
                        assert forall|q: int| 0 <= q < dsi.len() implies 0 <= #[trigger] dsi[q]
                            < os.d by {
                            assert(ds_idx@[q] < os.d);
                        }
                        assert forall|q1: int, q2: int|
                            0 <= q1 < q2 < dsi.len() implies dsi[q1] != dsi[q2] by {
                            assert(ds_idx@[q1] < ds_idx@[q2]);
                        }
                        assert(distinct_below(dsi, os.d as int));
                        assert forall|q: int| 0 <= q < csi.len() implies 0 <= #[trigger] csi[q]
                            < os.c by {
                            assert(cs_idx@[q] < os.c);
                        }
                        assert forall|q1: int, q2: int|
                            0 <= q1 < q2 < csi.len() implies csi[q1] != csi[q2] by {
                            assert(cs_idx@[q1] < cs_idx@[q2]);
                        }
                        assert(distinct_below(csi, os.c as int));
                        assert(crate::matrix::trivial_kernel(
                            os.tables,
                            recovery_rows(os.reed, os.d as int, dsi, csi),
                            os.d as int,
                        ));
                        assert(recm =~~= recovery_rows(os.reed, os.d as int, dsi, csi)) by {
                            assert forall|q: int| 0 <= q < os.d implies recm[q] == recovery_rows(
                                os.reed,
                                os.d as int,
                                dsi,
                                csi,
                            )[q] by {
                                if q < dsi.len() {
                                    assert(recm[q] == unit_row(os.d as int, ds_idx@[q] as int));
                                } else {
                                    assert(recm[dsi.len() + (q - dsi.len())] == os.reed.m()[cs_idx@[q
                                        - dsi.len()] as int]);
                                }
                            }
                        }
                        assert(crate::matrix::trivial_kernel(os.tables, recm, os.d as int));
                        assert(false);
                    }
                }
                return Err(Error::SingularMatrix);
            }
            proof {
                assert(grid(chunks) == sol);
                assert forall|q: int| 0 <= q < os.d implies (#[trigger] chunks@[q])@
                    == os.content_of(s as int, q) && chunks@[q]@.len() == os.x by {
                    assert(grid(chunks)[q] == chunks@[q]@);
                    assert(sol[q] == os.content_of(s as int, q));
                }
            }

            // Write the recovered chunks to the devices that lost them.
            let ghost pre_write = self.devices@;
            let mut di: usize = 0;
            while di < self.d
                invariant
                    os.inv(),
                    os == *old(self),
                    count_online(os.online@, os.n()) >= os.d,
                    count_online(recover@, os.n()) == os.d,
                    s <= os.max_data_slices,
                    di <= os.d,
                    self.d == os.d,
                    self.c == os.c,
                    self.x == os.x,
                    self.tables == os.tables,
                    self.reed == os.reed,
                    self.online == os.online,
                    self.content == os.content,
                    self.max_data_slices == os.max_data_slices,
                    self.devices@.len() == os.n(),
                    chunks@.len() == os.d,
                    forall|q: int|
                        0 <= q < os.d ==> (#[trigger] chunks@[q])@ == os.content_of(s as int, q)
                            && chunks@[q]@.len() == os.x,
                    forall|dv: int, s2: int|
                        0 <= dv < os.n() && (os.online@[dv] || s2 != s) ==> #[trigger] raw_slot(
                            self.devices@,
                            dv,
                            s2,
                        ) == raw_slot(pre_write, dv, s2),
                    forall|dv: int, s2: int|
                        (0 <= dv < os.n() && (#[trigger] raw_slot(self.devices@, dv, s2)) is Some)
                            ==> raw_slot(self.devices@, dv, s2).unwrap()@.len() == os.x,
                    forall|dv: int, s2: int|
                        0 <= dv < os.n() && s2 > os.max_data_slices ==> (#[trigger] raw_slot(
                            self.devices@,
                            dv,
                            s2,
                        )) is None,
                    forall|i2: int|
                        0 <= i2 < di && !os.online@[device_for(os.n(), s as int, i2)]
                            ==> #[trigger] self.stored(device_for(os.n(), s as int, i2), s as int)
                            == os.content_of(s as int, i2),
                decreases os.d - di,
            {
                let ghost pre = *self;
                let dev = self.folder_id(s, di);
                if !self.online[dev] {
                    put_slot(&mut self.devices, dev, s, copy_row(&chunks[di]));
                    proof {
                        assert forall|i2: int|
                            0 <= i2 < di && !os.online@[device_for(os.n(), s as int, i2)] implies #[trigger] self.stored(
                            device_for(os.n(), s as int, i2),
                            s as int,
                        ) == os.content_of(s as int, i2) by {
                            lemma_placement_disjoint(os.n(), s as int, i2, di as int);
                            assert(pre.stored(device_for(os.n(), s as int, i2), s as int)
                                == os.content_of(s as int, i2));
                            assert(raw_slot(self.devices@, device_for(os.n(), s as int, i2), s as int)
                                == raw_slot(pre.devices@, device_for(os.n(), s as int, i2), s as int));
                        }
                    }
                }
                di += 1;
            }
            let mut ci: usize = 0;
            while ci < self.c
                invariant
                    os.inv(),
                    os == *old(self),
                    count_online(os.online@, os.n()) >= os.d,
                    count_online(recover@, os.n()) == os.d,
                    s <= os.max_data_slices,
                    ci <= os.c,
                    self.d == os.d,
                    self.c == os.c,
                    self.x == os.x,
                    self.tables == os.tables,
                    self.reed == os.reed,
                    self.online == os.online,
                    self.content == os.content,
                    self.max_data_slices == os.max_data_slices,
                    self.devices@.len() == os.n(),
                    chunks@.len() == os.d,
                    grid_wf(grid(chunks), os.d as int, os.x as int),
                    forall|q: int|
                        0 <= q < os.d ==> (#[trigger] chunks@[q])@ == os.content_of(s as int, q)
                            && chunks@[q]@.len() == os.x,
                    forall|dv: int, s2: int|
                        0 <= dv < os.n() && (os.online@[dv] || s2 != s) ==> #[trigger] raw_slot(
                            self.devices@,
                            dv,
                            s2,
                        ) == raw_slot(pre_write, dv, s2),
                    forall|dv: int, s2: int|
                        (0 <= dv < os.n() && (#[trigger] raw_slot(self.devices@, dv, s2)) is Some)
                            ==> raw_slot(self.devices@, dv, s2).unwrap()@.len() == os.x,
                    forall|dv: int, s2: int|
                        0 <= dv < os.n() && s2 > os.max_data_slices ==> (#[trigger] raw_slot(
                            self.devices@,
                            dv,
                            s2,
                        )) is None,
                    forall|i2: int|
                        0 <= i2 < os.d && !os.online@[device_for(os.n(), s as int, i2)]
                            ==> #[trigger] self.stored(device_for(os.n(), s as int, i2), s as int)
                            == os.content_of(s as int, i2),
                    forall|k2: int|
                        0 <= k2 < ci && !os.online@[device_for(os.n(), s as int, os.d + k2)]
                            ==> #[trigger] self.stored(
                            device_for(os.n(), s as int, os.d + k2),
                            s as int,
                        ) == os.parity_spec(s as int, k2),
                decreases os.c - ci,
            {
                let ghost pre = *self;
                let dev = self.folder_id(s, self.d + ci);
                if !self.online[dev] {
                    proof {
                        assert(self.reed.m()[ci as int].len() == os.d);
                        assert(self.reed.data@[ci as int]@.len() == os.d);
                        assert forall|q: int| 0 <= q < os.d implies (#[trigger] grid(chunks)[q]).len()
                            == os.x by {
                            assert(grid(chunks)[q] == chunks@[q]@);
                        }
                    }
                    let ck = self.reed.mul_vec_at(&self.tables, &chunks, ci, self.x);
                    proof {
                        assert(self.reed.m()[ci as int].len() == os.d);
                        assert(self.reed.data@[ci as int]@.len() == os.d);
                        assert forall|p: int| 0 <= p < os.x implies ck@[p] == os.parity_spec(
                            s as int,
                            ci as int,
                        )[p] by {
                            assert(col(grid(chunks), p) =~= col(os.data_row(s as int), p));
                        }
                        assert(ck@ =~= os.parity_spec(s as int, ci as int));
                    }
                    put_slot(&mut self.devices, dev, s, ck);
                    proof {
                        assert forall|i2: int|
                            0 <= i2 < os.d && !os.online@[device_for(os.n(), s as int, i2)] implies #[trigger] self.stored(
                            device_for(os.n(), s as int, i2),
                            s as int,
                        ) == os.content_of(s as int, i2) by {
                            lemma_placement_disjoint(os.n(), s as int, i2, (os.d + ci) as int);
                            assert(pre.stored(device_for(os.n(), s as int, i2), s as int)
                                == os.content_of(s as int, i2));
                            assert(raw_slot(self.devices@, device_for(os.n(), s as int, i2), s as int)
                                == raw_slot(pre.devices@, device_for(os.n(), s as int, i2), s as int));
                        }
                        assert forall|k2: int|
                            0 <= k2 < ci && !os.online@[device_for(os.n(), s as int, os.d + k2)] implies #[trigger] self.stored(
                            device_for(os.n(), s as int, os.d + k2),
                            s as int,
                        ) == os.parity_spec(s as int, k2) by {
                            lemma_placement_disjoint(
                                os.n(),
                                s as int,
                                (os.d + k2) as int,
                                (os.d + ci) as int,
                            );
                            assert(pre.stored(device_for(os.n(), s as int, os.d + k2), s as int)
                                == os.parity_spec(s as int, k2));
                            assert(raw_slot(
                                self.devices@,
                                device_for(os.n(), s as int, os.d + k2),
                                s as int,
                            ) == raw_slot(
                                pre.devices@,
                                device_for(os.n(), s as int, os.d + k2),
                                s as int,
                            ));
                        }
                    }
                }
                ci += 1;
            }
            proof {
                // the whole slice is now restored on every device
                assert forall|i2: int| 0 <= i2 < os.d implies #[trigger] self.stored(
                    device_for(os.n(), s as int, i2),
                    s as int,
                ) == os.content_of(s as int, i2) by {
                    let dv = device_for(os.n(), s as int, i2);
                    if os.online@[dv] {
                        assert(raw_slot(self.devices@, dv, s as int) == raw_slot(
                            pre_write,
                            dv,
                            s as int,
                        ));
                        assert(raw_slot(pre_write, dv, s as int) == raw_slot(
                            os.devices@,
                            dv,
                            s as int,
                        ));
                        assert(os.stored(dv, s as int) == os.content_of(s as int, i2));
                    }
                }
                assert forall|k2: int| 0 <= k2 < os.c implies #[trigger] self.stored(
                    device_for(os.n(), s as int, os.d + k2),
                    s as int,
                ) == os.parity_spec(s as int, k2) by {
                    let dv = device_for(os.n(), s as int, os.d + k2);
                    if os.online@[dv] {
                        assert(raw_slot(self.devices@, dv, s as int) == raw_slot(
                            pre_write,
                            dv,
                            s as int,
                        ));
                        assert(raw_slot(pre_write, dv, s as int) == raw_slot(
                            os.devices@,
                            dv,
                            s as int,
                        ));
                        assert(os.stored(dv, s as int) == os.parity_spec(s as int, k2));
                    }
                }
                // slots of other slices were left alone
                assert forall|dv: int, s2: int|
                    0 <= dv < os.n() && (os.online@[dv] || s2 >= s + 1) implies #[trigger] raw_slot(
                    self.devices@,
                    dv,
                    s2,
                ) == raw_slot(os.devices@, dv, s2) by {
                    assert(raw_slot(self.devices@, dv, s2) == raw_slot(pre_write, dv, s2));
                    assert(raw_slot(sb.devices@, dv, s2) == raw_slot(os.devices@, dv, s2));
                }
                // earlier slices stay restored
                assert forall|s2: int, i2: int|
                    0 <= s2 < s + 1 && 0 <= i2 < os.d implies #[trigger] self.stored(
                    device_for(os.n(), s2, i2),
                    s2,
                ) == os.content_of(s2, i2) by {
                    if s2 < s {
                        let dv = device_for(os.n(), s2, i2);
                        assert(sb.stored(device_for(os.n(), s2, i2), s2) == os.content_of(
                            s2,
                            i2,
                        ));
                        assert(raw_slot(self.devices@, dv, s2) == raw_slot(pre_write, dv, s2));
                        assert(raw_slot(pre_write, dv, s2) == raw_slot(sb.devices@, dv, s2));
                    } else {
                        assert(self.stored(device_for(os.n(), s as int, i2), s as int)
                            == os.content_of(s as int, i2));
                    }
                }
                assert forall|s2: int, k2: int|
                    0 <= s2 < s + 1 && 0 <= k2 < os.c implies #[trigger] self.stored(
                    device_for(os.n(), s2, os.d + k2),
                    s2,
                ) == os.parity_spec(s2, k2) by {
                    if s2 < s {
                        let dv = device_for(os.n(), s2, os.d + k2);
                        assert(sb.stored(device_for(os.n(), s2, os.d + k2), s2) == os.parity_spec(
                            s2,
                            k2,
                        ));
                        assert(raw_slot(self.devices@, dv, s2) == raw_slot(pre_write, dv, s2));
                        assert(raw_slot(pre_write, dv, s2) == raw_slot(sb.devices@, dv, s2));
                    } else {
                        assert(self.stored(device_for(os.n(), s as int, os.d + k2), s as int)
                            == os.parity_spec(s as int, k2));
                    }
                }
            }
            s += 1;
        }

        // Every device is rebuilt: bring them all online.
        let ghost mid = *self;
        proof {
            assert forall|s2: int, i2: int|
                0 <= s2 <= os.max_data_slices && 0 <= i2 < os.d implies #[trigger] mid.stored(
                device_for(os.n(), s2, i2),
                s2,
            ) == os.content_of(s2, i2) by {
                assert(self.stored(device_for(os.n(), s2, i2), s2) == os.content_of(s2, i2));
            }
            assert forall|s2: int, k2: int|
                0 <= s2 <= os.max_data_slices && 0 <= k2 < os.c implies #[trigger] mid.stored(
                device_for(os.n(), s2, os.d + k2),
                s2,
            ) == os.parity_spec(s2, k2) by {
                assert(self.stored(device_for(os.n(), s2, os.d + k2), s2) == os.parity_spec(
                    s2,
                    k2,
                ));
            }
        }
        let mut i: usize = 0;
        while i < n
            invariant
                os.inv(),
                i <= n,
                n == os.n(),
                self.online@.len() == n,
                self.d == os.d,
                self.c == os.c,
                self.x == os.x,
                self.tables == os.tables,
                self.reed == os.reed,
                self.content == os.content,
                self.max_data_slices == os.max_data_slices,
                self.devices@ == mid.devices@,
                mid.x == os.x,
                self.devices@.len() == os.n(),
                forall|j: int| 0 <= j < i ==> (#[trigger] self.online@[j]) == true,
                forall|dv: int, s2: int|
                    (0 <= dv < os.n() && (#[trigger] raw_slot(mid.devices@, dv, s2)) is Some)
                        ==> raw_slot(mid.devices@, dv, s2).unwrap()@.len() == os.x,
                forall|dv: int, s2: int|
                    0 <= dv < os.n() && s2 > os.max_data_slices ==> (#[trigger] raw_slot(
                        mid.devices@,
                        dv,
                        s2,
                    )) is None,
                forall|s2: int, i2: int|
                    0 <= s2 <= os.max_data_slices && 0 <= i2 < os.d ==> #[trigger] mid.stored(
                        device_for(os.n(), s2, i2),
                        s2,
                    ) == os.content_of(s2, i2),
                forall|s2: int, k2: int|
                    0 <= s2 <= os.max_data_slices && 0 <= k2 < os.c ==> #[trigger] mid.stored(
                        device_for(os.n(), s2, os.d + k2),
                        s2,
                    ) == os.parity_spec(s2, k2),
            decreases n - i,
        {
            self.online[i] = true;
            i += 1;
        }
        proof {
            assert(self.all_online());
            // chunks on devices that never went offline are untouched
            assert forall|dv: int, s2: int|
                0 <= dv < os.n() && os.online@[dv] implies #[trigger] raw_slot(
                self.devices@,
                dv,
                s2,
            ) == raw_slot(os.devices@, dv, s2) by {
                assert(raw_slot(self.devices@, dv, s2) == raw_slot(mid.devices@, dv, s2));
                assert(raw_slot(mid.devices@, dv, s2) == raw_slot(os.devices@, dv, s2));
            }
            assert forall|dv: int, s2: int|
                (0 <= dv < self.n() && (#[trigger] raw_slot(self.devices@, dv, s2)) is Some) implies raw_slot(
                self.devices@,
                dv,
                s2,
            ).unwrap()@.len() == self.x by {
                assert(raw_slot(mid.devices@, dv, s2) == raw_slot(self.devices@, dv, s2));
            }
            assert forall|dv: int, s2: int|
                0 <= dv < self.n() && s2 > self.max_data_slices implies (#[trigger] raw_slot(
                self.devices@,
                dv,
                s2,
            )) is None by {
                assert(raw_slot(mid.devices@, dv, s2) == raw_slot(self.devices@, dv, s2));
            }
            assert forall|s2: int, i2: int|
                0 <= s2 <= self.max_data_slices && 0 <= i2 < self.d && self.online@[device_for(
                    self.n(),
                    s2,
                    i2,
                )] implies #[trigger] self.stored(device_for(self.n(), s2, i2), s2)
                == self.content_of(s2, i2) by {
                assert(mid.stored(device_for(os.n(), s2, i2), s2) == os.content_of(s2, i2));
                assert(raw_slot(self.devices@, device_for(os.n(), s2, i2), s2) == raw_slot(
                    mid.devices@,
                    device_for(os.n(), s2, i2),
                    s2,
                ));
            }
            assert forall|s2: int, k2: int|
                0 <= s2 <= self.max_data_slices && 0 <= k2 < self.c && self.online@[device_for(
                    self.n(),
                    s2,
                    self.d + k2,
                )] implies #[trigger] self.stored(device_for(self.n(), s2, self.d + k2), s2)
                == self.parity_spec(s2, k2) by {
                assert(mid.stored(device_for(os.n(), s2, os.d + k2), s2) == os.parity_spec(
                    s2,
                    k2,
                ));
                assert(raw_slot(self.devices@, device_for(os.n(), s2, os.d + k2), s2) == raw_slot(
                    mid.devices@,
                    device_for(os.n(), s2, os.d + k2),
                    s2,
                ));
                assert(self.parity_spec(s2, k2) == os.parity_spec(s2, k2));
            }
            // recovery on an already-whole engine is bitwise a no-op
            if os.all_online() {
                assert(self.inv());
                lemma_recovery_idempotent(os, *self);
            }
        }
        Ok(())
    }

    /// Take one device offline and erase its stored chunks.  The logical
    /// content is untouched; `construct_missing_devices` rebuilds the
    /// stored bytes from the survivors.
    pub fn remove_device(&mut self, idx: usize)
        requires
            old(self).inv(),
            idx < old(self).n(),
        ensures
            final(self).inv(),
            final(self).d == old(self).d,
            final(self).c == old(self).c,
            final(self).x == old(self).x,
            final(self).tables == old(self).tables,
            final(self).reed == old(self).reed,
            final(self).max_data_slices == old(self).max_data_slices,
            final(self).content == old(self).content,
            final(self).online@ == old(self).online@.update(idx as int, false),
            forall|s: int| (#[trigger] raw_slot(final(self).devices@, idx as int, s)) is None,
            forall|dv: int, s: int|
                0 <= dv < old(self).n() && dv != idx ==> #[trigger] raw_slot(
                    final(self).devices@,
                    dv,
                    s,
                ) == raw_slot(old(self).devices@, dv, s),
    {
        let ghost os = *self;
        let row = vstd::std_specs::vec::vec_index_mut(&mut self.devices, idx);
        *row = Vec::new();
        self.online[idx] = false;
        proof {
            assert forall|dv: int, s: int| 0 <= dv < os.n() && dv != idx implies #[trigger] raw_slot(
                self.devices@,
                dv,
                s,
            ) == raw_slot(os.devices@, dv, s) by {
                assert(self.devices@[dv] == os.devices@[dv]);
            }
            assert forall|s: int| true implies #[trigger] raw_slot(self.devices@, idx as int, s)
                is None by {}
            assert forall|s2: int, i2: int|
                0 <= s2 <= self.max_data_slices && 0 <= i2 < self.d && self.online@[device_for(
                    self.n(),
                    s2,
                    i2,
                )] implies #[trigger] self.stored(device_for(self.n(), s2, i2), s2)
                == self.content_of(s2, i2) by {
                let dv = device_for(self.n(), s2, i2);
                assert(dv != idx);
                assert(os.online@[dv]);
                assert(os.stored(dv, s2) == os.content_of(s2, i2));
            }
            assert forall|s2: int, k2: int|
                0 <= s2 <= self.max_data_slices && 0 <= k2 < self.c && self.online@[device_for(
                    self.n(),
                    s2,
                    self.d + k2,
                )] implies #[trigger] self.stored(device_for(self.n(), s2, self.d + k2), s2)
                == self.parity_spec(s2, k2) by {
                let dv = device_for(self.n(), s2, self.d + k2);
                assert(dv != idx);
                assert(os.online@[dv]);
                assert(os.stored(dv, s2) == os.parity_spec(s2, k2));
                assert(self.parity_spec(s2, k2) == os.parity_spec(s2, k2));
            }
        }
    }
}

/// Parity consistency: after any sequence of writes and updates, the
/// stored parity chunk `k` of every slice `s` equals the code's demand,
/// the parity matrix row applied to the slice's logical data.
pub proof fn lemma_parity_consistency(e: Controller, s: int, k: int)
    requires
        e.inv(),
        e.all_online(),
        0 <= s <= e.max_data_slices,
        0 <= k < e.c,
    ensures
        e.stored(device_for(e.n(), s, e.d + k), s) == e.parity_spec(s, k),
{
    assert(e.online@[device_for(e.n(), s, e.d + k)]);
}

/// Recovery is idempotent: running recovery on an already-whole engine
/// leaves every stored chunk bitwise unchanged.  The two engines here are
/// the states before and after such a run, related exactly as
/// `construct_missing_devices` ensures.
pub proof fn lemma_recovery_idempotent(before: Controller, after: Controller)
    requires
        before.inv(),
        before.all_online(),
        after.inv(),
        after.all_online(),
        after.d == before.d,
        after.c == before.c,
        after.x == before.x,
        after.tables == before.tables,
        after.reed == before.reed,
        after.max_data_slices == before.max_data_slices,
        after.content == before.content,
    ensures
        forall|s: int, i: int|
            0 <= s <= before.max_data_slices && 0 <= i < before.d ==> #[trigger] after.stored(
                device_for(before.n(), s, i),
                s,
            ) == before.stored(device_for(before.n(), s, i), s),
        forall|s: int, k: int|
            0 <= s <= before.max_data_slices && 0 <= k < before.c ==> #[trigger] after.stored(
                device_for(before.n(), s, before.d + k),
                s,
            ) == before.stored(device_for(before.n(), s, before.d + k), s),
{
    assert forall|s: int, i: int|
        0 <= s <= before.max_data_slices && 0 <= i < before.d implies #[trigger] after.stored(
        device_for(before.n(), s, i),
        s,
    ) == before.stored(device_for(before.n(), s, i), s) by {
        let dv = device_for(before.n(), s, i);
        assert(before.online@[dv]);
        assert(after.online@[dv]);
        assert(before.stored(dv, s) == before.content_of(s, i));
        assert(after.stored(device_for(after.n(), s, i), s) == after.content_of(s, i));
    }
    assert forall|s: int, k: int|
        0 <= s <= before.max_data_slices && 0 <= k < before.c implies #[trigger] after.stored(
        device_for(before.n(), s, before.d + k),
        s,
    ) == before.stored(device_for(before.n(), s, before.d + k), s) by {
        let dv = device_for(before.n(), s, before.d + k);
        assert(before.online@[dv]);
        assert(after.online@[dv]);
        assert(before.stored(dv, s) == before.parity_spec(s, k));
        assert(after.stored(device_for(after.n(), s, after.d + k), s) == after.parity_spec(s, k));
        assert(after.parity_spec(s, k) == before.parity_spec(s, k));
    }
}

impl RAID for Controller {
    open spec fn d_spec(&self) -> int {
        self.d as int
    }

    open spec fn c_spec(&self) -> int {
        self.c as int
    }

    open spec fn x_spec(&self) -> int {
        self.x as int
    }

    open spec fn wf(&self) -> bool {
        self.inv()
    }

    open spec fn whole(&self) -> bool {
        self.all_online()
    }

    open spec fn max_slice(&self) -> int {
        self.max_data_slices as int
    }

    open spec fn content_at(&self, s: int, i: int) -> Seq<u8> {
        self.content_of(s, i)
    }

    open spec fn recoverable(&self) -> bool {
        mds_matrix(self.tables, self.reed, self.d as int, self.c as int)
    }

    open spec fn code(&self) -> (GfTables, Matrix) {
        (self.tables, self.reed)
    }

    fn d_exec(&self) -> (r: usize) {
        self.d
    }

    fn x_exec(&self) -> (r: usize) {
        self.x
    }

    proof fn content_wf(&self, s: int, i: int) {
        if self.content@.contains_key((s, i)) {
            assert(self.content@[(s, i)].len() == self.x);
        }
    }

    fn new(d: usize, c: usize, x: usize) -> (r: Result<Self, Error>) {
        let tables = match galois::gf_build_tables() {
            Some(t) => t,
            None => {
                return Err(Error::SingularBasis);
            },
        };
        let reed = match Matrix::reed_solomon(&tables, c, d) {
            Ok(m) => m,
            Err(e) => {
                return Err(e);
            },
        };
        let n = d + c;
        let mut devices: Vec<DeviceStore> = Vec::new();
        let mut online: Vec<bool> = Vec::new();
        let mut i: usize = 0;
        while i < n
            invariant
                i <= n,
                devices@.len() == i,
                online@.len() == i,
                forall|k: int| 0 <= k < i ==> (#[trigger] devices@[k])@.len() == 0,
                forall|k: int| 0 <= k < i ==> (#[trigger] online@[k]) == true,
            decreases n - i,
        {
            devices.push(Vec::new());
            online.push(true);
            i += 1;
        }
        let eng = Controller {
            d,
            c,
            x,
            tables,
            reed,
            devices,
            online,
            max_data_slices: 0,
            content: Ghost(Map::empty()),
        };
        proof {
            assert forall|dev: int, s: int| 0 <= dev < eng.n() implies (#[trigger] raw_slot(
                eng.devices@,
                dev,
                s,
            )) is None by {
                assert(eng.devices@[dev]@.len() == 0);
            }
            assert forall|s2: int, k2: int|
                0 <= s2 <= eng.max_data_slices && 0 <= k2 < eng.c && eng.online@[device_for(
                    eng.n(),
                    s2,
                    eng.d + k2,
                )] implies #[trigger] eng.stored(device_for(eng.n(), s2, eng.d + k2), s2)
                == eng.parity_spec(s2, k2) by {
                assert forall|p: int| 0 <= p < eng.x implies eng.parity_spec(s2, k2)[p] == 0 by {
                    let cl = col(eng.data_row(s2), p);
                    assert forall|j: int| 0 <= j < cl.len() implies (#[trigger] cl[j]) == 0 by {
                        assert(!eng.content@.contains_key((s2, j)));
                        assert(eng.data_row(s2)[j] == zero_seq(eng.x as int));
                    }
                    assert(eng.reed.m()[k2].len() == eng.d);
                    lemma_dot_from_zero_vals(eng.tables, eng.reed.m()[k2], cl, 0);
                }
                assert(raw_slot(eng.devices@, device_for(eng.n(), s2, eng.d + k2), s2) is None);
                assert(eng.stored(device_for(eng.n(), s2, eng.d + k2), s2) =~= eng.parity_spec(
                    s2,
                    k2,
                ));
            }
            assert forall|s: int, i2: int| true implies eng.content_at(s, i2) == zero_seq(
                x as int,
            ) by {
                assert(!eng.content@.contains_key((s, i2)));
            }
        }
        Ok(eng)
    }

    fn add_data(&mut self, data: &Vec<Vec<u8>>, data_slice: usize) {
        let ghost os = *self;
        let d = self.d;
        let mut i: usize = 0;
        while i < d
            invariant
                os.inv(),
                os.all_online(),
                self.inv(),
                self.all_online(),
                i <= d,
                d == os.d,
                self.d == os.d,
                self.c == os.c,
                self.x == os.x,
                self.tables == os.tables,
                self.reed == os.reed,
                data_slice + 1 <= usize::MAX,
                grid_wf(grid(*data), os.d as int, os.x as int),
                i == 0 ==> *self == os,
                i > 0 ==> self.max_data_slices == (if data_slice > os.max_data_slices {
                    data_slice as int
                } else {
                    os.max_data_slices as int
                }),
                forall|j: int|
                    0 <= j < i ==> #[trigger] self.content_of(data_slice as int, j) == grid(
                        *data,
                    )[j],
                forall|s2: int, i2: int|
                    (s2 != data_slice || i2 >= i) ==> #[trigger] self.content_of(s2, i2)
                        == os.content_of(s2, i2),
            decreases d - i,
        {
            proof {
                assert(grid(*data)[i as int].len() == os.x);
                assert(data@[i as int]@.len() == os.x);
            }
            let ghost prev = *self;
            self.write_chunk(&data[i], data_slice, i);
            proof {
                assert(self.content@ == prev.content@.insert(
                    (data_slice as int, i as int),
                    data@[i as int]@,
                ));
                assert forall|j: int| 0 <= j < i + 1 implies #[trigger] self.content_of(
                    data_slice as int,
                    j,
                ) == grid(*data)[j] by {
                    if j == i as int {
                        assert(self.content@.contains_key((data_slice as int, j)));
                        assert(self.content@[(data_slice as int, j)] == data@[i as int]@);
                    } else {
                        assert(prev.content_of(data_slice as int, j) == grid(*data)[j]);
                    }
                }
                assert forall|s2: int, i2: int|
                    (s2 != data_slice || i2 >= i + 1) implies #[trigger] self.content_of(s2, i2)
                        == os.content_of(s2, i2) by {
                    assert(prev.content_of(s2, i2) == os.content_of(s2, i2));
                }
            }
            i += 1;
        }
    }

    fn add_data_at(&mut self, data: &Vec<u8>, data_slice: usize, data_idx: usize) {
        self.write_chunk(data, data_slice, data_idx);
    }

    fn read_data_at(&self, data_slice: usize, data_idx: usize) -> (r: Result<Vec<u8>, Error>) {
        if data_slice > self.max_data_slices {
            return Err(Error::OutOfRange);
        }
        let dev = self.folder_id(data_slice, data_idx);
        let ch = get_stored(&self.devices, dev, data_slice, self.x);
        proof {
            assert(self.stored(dev as int, data_slice as int) == self.content_of(
                data_slice as int,
                data_idx as int,
            ));
        }
        Ok(ch)
    }

    fn read_data(&self, data_slice: usize) -> (r: Result<Vec<Vec<u8>>, Error>) {
        if data_slice > self.max_data_slices {
            return Err(Error::OutOfRange);
        }
        let d = self.d;
        let mut out: Vec<Vec<u8>> = Vec::new();
        let mut i: usize = 0;
        while i < d
            invariant
                self.inv(),
                self.all_online(),
                d == self.d,
                i <= d,
                data_slice <= self.max_data_slices,
                out@.len() == i,
                forall|k: int| 0 <= k < i ==> (#[trigger] out@[k])@.len() == self.x,
                forall|k: int|
                    0 <= k < i ==> (#[trigger] out@[k])@ == self.content_of(data_slice as int, k),
            decreases d - i,
        {
            let dev = self.folder_id(data_slice, i);
            let ch = get_stored(&self.devices, dev, data_slice, self.x);
            proof {
                assert(self.stored(dev as int, data_slice as int) == self.content_of(
                    data_slice as int,
                    i as int,
                ));
                if self.content@.contains_key((data_slice as int, i as int)) {
                    assert(self.content@[(data_slice as int, i as int)].len() == self.x);
                }
            }
            out.push(ch);
            i += 1;
        }
        proof {
            assert forall|k: int| 0 <= k < d implies (#[trigger] grid(out)[k]).len() == self.x by {
                assert(grid(out)[k] == out@[k]@);
            }
            assert forall|k: int| 0 <= k < d implies #[trigger] grid(out)[k] == self.content_of(
                data_slice as int,
                k,
            ) by {
                assert(grid(out)[k] == out@[k]@);
            }
        }
        Ok(out)
    }

    fn update_data(&mut self, data: &Vec<u8>, data_slice: usize, data_idx: usize) {
        self.write_chunk(data, data_slice, data_idx);
    }

    fn destroy_devices(&mut self, dev_idxs: &Vec<usize>) -> (r: Result<(), Error>) {
        let ghost os = *self;
        proof {
            lemma_count_all_true(self.online@, os.n());
        }
        let mut i: usize = 0;
        while i < dev_idxs.len()
            invariant
                i <= dev_idxs@.len(),
                os == *old(self),
                os.inv(),
                os.all_online(),
                self.inv(),
                self.d == os.d,
                self.c == os.c,
                self.x == os.x,
                self.tables == os.tables,
                self.reed == os.reed,
                self.max_data_slices == os.max_data_slices,
                self.content == os.content,
                self.online@.len() == os.n(),
                forall|j: int|
                    0 <= j < dev_idxs@.len() ==> (#[trigger] dev_idxs@[j]) < os.d + os.c,
                // which devices have been taken offline so far
                forall|j: int|
                    0 <= j < os.n() ==> ((#[trigger] self.online@[j]) <==> !(exists|k: int|
                        0 <= k < i && (#[trigger] dev_idxs@[k]) == j)),
                // with distinct victims, each removal lowers the count by one
                (forall|k1: int, k2: int|
                    0 <= k1 < k2 < dev_idxs@.len() ==> (#[trigger] dev_idxs@[k1]) != (
                    #[trigger] dev_idxs@[k2])) ==> count_online(self.online@, os.n()) == os.n()
                    - i,
            decreases dev_idxs@.len() - i,
        {
            let ghost pre = *self;
            let victim = dev_idxs[i];
            self.remove_device(victim);
            proof {
                lemma_count_update(pre.online@, victim as int, false, os.n());
                assert forall|j: int|
                    0 <= j < os.n() implies ((#[trigger] self.online@[j]) <==> !(exists|k: int|
                    0 <= k < i + 1 && (#[trigger] dev_idxs@[k]) == j)) by {
                    if j == victim {
                        assert(dev_idxs@[i as int] == j);
                    } else {
                        assert(self.online@[j] == pre.online@[j]);
                    }
                }
                if forall|k1: int, k2: int|
                    0 <= k1 < k2 < dev_idxs@.len() ==> (#[trigger] dev_idxs@[k1]) != (
                #[trigger] dev_idxs@[k2]) {
                    // the victim was still online: it was not removed before
                    assert(pre.online@[victim as int]) by {
                        if !pre.online@[victim as int] {
                            let k = choose|k: int|
                                0 <= k < i && (#[trigger] dev_idxs@[k]) == victim;
                            assert(dev_idxs@[k] != dev_idxs@[i as int]);
                        }
                    }
                }
            }
            i += 1;
        }
        proof {
            if os.recoverable() && dev_idxs@.len() <= os.c && (forall|k1: int, k2: int|
                0 <= k1 < k2 < dev_idxs@.len() ==> (#[trigger] dev_idxs@[k1]) != (
                #[trigger] dev_idxs@[k2])) {
                assert(count_online(self.online@, os.n()) == os.n() - dev_idxs@.len());
                assert(count_online(self.online@, self.d + self.c) >= self.d);
            }
        }
        let r = self.construct_missing_devices();
        proof {
            assert forall|s: int, i2: int| true implies #[trigger] self.content_of(s, i2) == os.content_of(
                s,
                i2,
            ) by {
                assert(self.content@ == os.content@);
            }
        }
        r
    }
}

} // verus!
