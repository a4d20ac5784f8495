//! The file mapper: named byte streams on top of a RAID engine.
//!
//! Each file occupies a contiguous run of data chunks starting at the
//! engine's write cursor; a partial trailing chunk is zero-padded.  Reads
//! walk the same run and truncate the last chunk; updates overlay bytes in
//! place through the engine's incremental `update_data`.

use vstd::prelude::*;

verus! {

use crate::Error;
use crate::raid::{RAID, zero_seq};

/// Where a named file lives: its first slice, its first data position in
/// that slice, and its length in bytes.
#[derive(Debug, Clone)]
pub struct FileLocation {
    pub start_slice: usize,
    pub start_data_idx: usize,
    pub length: usize,
}

impl FileLocation {
    pub fn new(start_slice: usize, start_data_idx: usize, length: usize) -> (r: Self)
        ensures
            r.start_slice == start_slice,
            r.start_data_idx == start_data_idx,
            r.length == length,
    {
        FileLocation { start_slice, start_data_idx, length }
    }

    /// Advance to the next data position, wrapping into the next slice.
    fn increment_data_idx(&mut self, d: usize)
        requires
            d >= 1,
            old(self).start_data_idx < d,
            old(self).start_slice < usize::MAX,
        ensures
            final(self).length == old(self).length,
            final(self).start_data_idx < d,
            final(self).start_slice * d + final(self).start_data_idx == old(self).start_slice * d
                + old(self).start_data_idx + 1,
            final(self).start_slice >= old(self).start_slice,
    {
        self.start_data_idx += 1;
        if self.start_data_idx == d {
            self.start_data_idx = 0;
            self.start_slice += 1;
            proof {
                let s = old(self).start_slice as int;
                assert((s + 1) * d == s * d + d) by (nonlinear_arith);
            }
        }
    }
}

/// Facts about splitting a global chunk index into (slice, position).
proof fn lemma_g_split(g: int, d: int)
    requires
        d >= 1,
        g >= 0,
    ensures
        g / d >= 0,
        0 <= g % d < d,
        (g / d) * d + g % d == g,
{
    vstd::arithmetic::div_mod::lemma_fundamental_div_mod(g, d);
    vstd::arithmetic::div_mod::lemma_mod_division_less_than_divisor(g, d);
    vstd::arithmetic::div_mod::lemma_div_pos_is_pos(g, d);
    assert(d * (g / d) == (g / d) * d) by (nonlinear_arith);
}

/// A (slice, position) pair with `pos < d` splits its own global index.
proof fn lemma_g_join(s: int, i: int, d: int)
    requires
        d >= 1,
        s >= 0,
        0 <= i < d,
    ensures
        (s * d + i) / d == s,
        (s * d + i) % d == i,
        s * d + i >= 0,
    {
    assert(s * d + i >= 0) by (nonlinear_arith)
        requires
            s >= 0,
            d >= 1,
            i >= 0,
    ;
    assert(d * s == s * d) by (nonlinear_arith);
    vstd::arithmetic::div_mod::lemma_fundamental_div_mod_converse(s * d + i, d, s, i);
}

/// One byte of a stored file: byte `b` of the file whose chunks start at
/// global chunk index `g0`.
pub open spec fn file_byte<R: RAID>(raid: R, g0: int, d: int, x: int, b: int) -> u8 {
    raid.content_at((g0 + b / x) / d, (g0 + b / x) % d)[b % x]
}

/// The bytes of a stored file of length `len` whose chunks start at `g0`.
pub open spec fn file_bytes<R: RAID>(raid: R, g0: int, d: int, x: int, len: int) -> Seq<u8> {
    Seq::new(len as nat, |b: int| file_byte(raid, g0, d, x, b))
}

/// Number of chunks a file of `len` bytes occupies.
pub open spec fn nchunks(len: int, x: int) -> int {
    (len + x - 1) / x
}

/// Basic facts about the chunk count of a file.
#[verifier::rlimit(50)]
proof fn lemma_nchunks(len: int, x: int)
    requires
        x >= 1,
        len >= 0,
    ensures
        nchunks(len, x) == len / x + (if len % x == 0 {
            0int
        } else {
            1int
        }),
        nchunks(len, x) * x >= len,
        nchunks(len, x) >= 0,
        len >= 1 ==> nchunks(len, x) >= 1,
        nchunks(len, x) <= len + 1,
        forall|b: int| 0 <= b < len ==> #[trigger] (b / x) < nchunks(len, x),
{
    vstd::arithmetic::div_mod::lemma_fundamental_div_mod(len, x);
    vstd::arithmetic::div_mod::lemma_mod_division_less_than_divisor(len, x);
    vstd::arithmetic::div_mod::lemma_div_pos_is_pos(len, x);
    let q = len / x;
    let r = len % x;
    if r == 0 {
        assert(len + x - 1 == x * q + (x - 1));
        assert(x * q == q * x) by (nonlinear_arith);
        vstd::arithmetic::div_mod::lemma_fundamental_div_mod_converse(len + x - 1, x, q, x - 1);
        assert(nchunks(len, x) == q);
        assert(q * x == len) by (nonlinear_arith)
            requires
                len == x * q + 0,
        ;
    } else {
        assert(len + x - 1 == x * (q + 1) + (r - 1)) by (nonlinear_arith)
            requires
                len == x * q + r,
        ;
        assert(x * (q + 1) == (q + 1) * x) by (nonlinear_arith);
        vstd::arithmetic::div_mod::lemma_fundamental_div_mod_converse(len + x - 1, x, q + 1, r - 1);
        assert(nchunks(len, x) == q + 1);
        assert((q + 1) * x >= len) by (nonlinear_arith)
            requires
                len == x * q + r,
                r < x,
        ;
    }
    assert(nchunks(len, x) <= len + 1) by (nonlinear_arith)
        requires
            len == x * q + r,
            0 <= r < x,
            x >= 1,
            q >= 0,
            nchunks(len, x) == q + (if r == 0 {
                0int
            } else {
                1int
            }),
    ;
    if len >= 1 && nchunks(len, x) <= 0 {
        assert(nchunks(len, x) * x <= 0) by (nonlinear_arith)
            requires
                nchunks(len, x) <= 0,
                x >= 1,
        ;
    }
    assert forall|b: int| 0 <= b < len implies #[trigger] (b / x) < nchunks(len, x) by {
        vstd::arithmetic::div_mod::lemma_fundamental_div_mod(b, x);
        vstd::arithmetic::div_mod::lemma_mod_division_less_than_divisor(b, x);
        vstd::arithmetic::div_mod::lemma_div_pos_is_pos(b, x);
        let nc = nchunks(len, x);
        assert(b / x >= nc ==> (b / x) * x >= nc * x) by (nonlinear_arith)
            requires
                x >= 1,
        ;
        assert((b / x) * x <= b) by (nonlinear_arith)
            requires
                b == x * (b / x) + b % x,
                b % x >= 0,
        ;
    }
}

/// A global chunk index below the cursor lies in a slice the engine has
/// seen: its slice number is at most the highest slice written.
proof fn lemma_below_cursor(g: int, d: int, cs: int, ci: int, maxs: int)
    requires
        d >= 1,
        0 <= g < cs * d + ci,
        0 <= ci < d,
        cs >= 0,
        cs <= maxs + 1,
        ci > 0 ==> cs <= maxs,
    ensures
        0 <= g / d <= maxs,
        0 <= g % d < d,
{
    lemma_g_split(g, d);
    let q = g / d;
    let r = g % d;
    if q >= cs + 1 {
        assert((cs + 1) * d <= q * d) by (nonlinear_arith)
            requires
                cs + 1 <= q,
                d >= 1,
        ;
        assert((cs + 1) * d == cs * d + d) by (nonlinear_arith);
        assert(g >= cs * d + d);
        assert(false);
    }
    if q == cs {
        assert(r < ci);
    } else {
        assert(q < cs);
    }
}

/// The file mapper over any RAID engine.
pub struct FileHandler<R: RAID> {
    pub raid: R,
    pub file_locations: Vec<(String, FileLocation)>,
    pub current_slice: usize,
    pub current_data_idx: usize,
}

impl<R: RAID> FileHandler<R> {
    /// Data chunks per slice of the underlying engine.
    pub open spec fn d(self) -> int {
        self.raid.d_spec()
    }

    /// Chunk size of the underlying engine.
    pub open spec fn x(self) -> int {
        self.raid.x_spec()
    }

    /// The write cursor as a global chunk index.
    pub open spec fn gcur(self) -> int {
        self.current_slice * self.d() + self.current_data_idx
    }

    /// The global chunk index where an entry's file starts.
    pub open spec fn entry_start(e: (String, FileLocation), d: int) -> int {
        e.1.start_slice * d + e.1.start_data_idx
    }

    /// An entry is laid out wholly before `gend`.
    pub open spec fn entry_ok(e: (String, FileLocation), d: int, x: int, gend: int) -> bool {
        &&& e.1.start_data_idx < d
        &&& Self::entry_start(e, d) + nchunks(e.1.length as int, x) <= gend
    }

    /// The mapper invariant: a sound, whole engine; a cursor inside the
    /// slice grid with only zeroes at and beyond it; and a table of
    /// uniquely named files laid out disjointly below the cursor.
    pub open spec fn wf(self) -> bool {
        &&& self.raid.wf()
        &&& self.raid.whole()
        &&& self.d() >= 1
        &&& self.x() >= 1
        &&& self.raid.max_slice() < usize::MAX
        &&& self.current_data_idx < self.d()
        &&& self.current_slice <= self.raid.max_slice() + 1
        &&& (self.current_data_idx > 0 ==> self.current_slice <= self.raid.max_slice())
        &&& forall|s: int, i: int|
            0 <= s && 0 <= i < self.d() && s * self.d() + i >= self.gcur()
                ==> #[trigger] self.raid.content_at(s, i) == zero_seq(self.x())
        &&& forall|j: int|
            0 <= j < self.file_locations@.len() ==> Self::entry_ok(
                #[trigger] self.file_locations@[j],
                self.d(),
                self.x(),
                self.gcur(),
            )
        &&& forall|j1: int, j2: int|
            0 <= j1 < j2 < self.file_locations@.len() ==> (#[trigger] self.file_locations@[j1]).0@
                != (#[trigger] self.file_locations@[j2]).0@
        &&& forall|j1: int, j2: int|
            0 <= j1 < self.file_locations@.len() && 0 <= j2 < self.file_locations@.len() && j1
                != j2 ==> Self::entry_start(#[trigger] self.file_locations@[j1], self.d())
                + nchunks(self.file_locations@[j1].1.length as int, self.x()) <= Self::entry_start(
                #[trigger] self.file_locations@[j2],
                self.d(),
            ) || Self::entry_start(self.file_locations@[j2], self.d()) + nchunks(
                self.file_locations@[j2].1.length as int,
                self.x(),
            ) <= Self::entry_start(self.file_locations@[j1], self.d())
    }

    /// A file of this name is stored.
    pub open spec fn has_file(self, name: Seq<char>) -> bool {
        exists|j: int|
            0 <= j < self.file_locations@.len() && (#[trigger] self.file_locations@[j]).0@ == name
    }

    /// The table index of the file of this name.
    pub open spec fn loc_idx(self, name: Seq<char>) -> int {
        choose|j: int|
            0 <= j < self.file_locations@.len() && (#[trigger] self.file_locations@[j]).0@ == name
    }

    /// The bytes of the stored file of this name.
    pub open spec fn fcontent(self, name: Seq<char>) -> Seq<u8> {
        let e = self.file_locations@[self.loc_idx(name)];
        file_bytes(
            self.raid,
            Self::entry_start(e, self.d()),
            self.d(),
            self.x(),
            e.1.length as int,
        )
    }

    /// Any entry whose name matches is the entry `loc_idx` picks.
    proof fn lemma_loc_unique(self, name: Seq<char>, j: int)
        requires
            self.wf(),
            0 <= j < self.file_locations@.len(),
            self.file_locations@[j].0@ == name,
        ensures
            self.has_file(name),
            self.loc_idx(name) == j,
    {
        assert(self.has_file(name));
        let j2 = self.loc_idx(name);
        if j2 != j {
            if j2 < j {
                assert(self.file_locations@[j2].0@ != self.file_locations@[j].0@);
            } else {
                assert(self.file_locations@[j].0@ != self.file_locations@[j2].0@);
            }
        }
    }

    /// Look a name up in the table.
    fn find_entry(&self, name: &str) -> (r: Option<usize>)
        ensures
            r is Some ==> r.unwrap() < self.file_locations@.len()
                && self.file_locations@[r.unwrap() as int].0@ == name@,
            r is None ==> !self.has_file(name@),
    {
        let owned: String = name.to_owned();
        let mut j: usize = 0;
        while j < self.file_locations.len()
            invariant
                j <= self.file_locations@.len(),
                owned@ == name@,
                forall|k: int| 0 <= k < j ==> (#[trigger] self.file_locations@[k]).0@ != name@,
            decreases self.file_locations@.len() - j,
        {
            if self.file_locations[j].0 == owned {
                return Some(j);
            }
            j += 1;
        }
        None
    }

    /// Create a mapper over a fresh engine with `d` data and `c` parity
    /// chunks per slice, of `x` bytes each.
    pub fn new(d: usize, c: usize, x: usize) -> (r: Result<Self, Error>)
        requires
            d >= 1,
            x >= 1,
            d + c <= 256,
        ensures
            r.is_ok() ==> {
                let h = r.unwrap();
                &&& h.wf()
                &&& h.d() == d
                &&& h.x() == x
                &&& h.file_locations@.len() == 0
                &&& h.gcur() == 0
                &&& forall|name: Seq<char>| !h.has_file(name)
            },
            (r matches Err(e) ==> e == Error::SingularBasis),
    {
        let raid = R::new(d, c, x)?;
        let h = FileHandler {
            raid,
            file_locations: Vec::new(),
            current_slice: 0,
            current_data_idx: 0,
        };
        Ok(h)
    }

    /// Destroy the listed devices and recover them; the stored files are
    /// untouched.
    pub fn destroy_devices(&mut self, dev_idxs: &Vec<usize>) -> (r: Result<(), Error>)
        requires
            old(self).wf(),
            forall|i: int|
                0 <= i < dev_idxs@.len() ==> (#[trigger] dev_idxs@[i]) < old(self).raid.d_spec()
                    + old(self).raid.c_spec(),
        ensures
            r.is_ok() ==> {
                &&& final(self).wf()
                &&& final(self).file_locations == old(self).file_locations
                &&& final(self).d() == old(self).d()
                &&& final(self).x() == old(self).x()
                &&& forall|name: Seq<char>|
                    final(self).has_file(name) == old(self).has_file(name)
                &&& forall|name: Seq<char>|
                    old(self).has_file(name) ==> final(self).fcontent(name) == old(
                        self,
                    ).fcontent(name)
            },
            r.is_err() ==> {
                &&& final(self).file_locations == old(self).file_locations
                &&& final(self).d() == old(self).d()
                &&& final(self).x() == old(self).x()
                &&& final(self).current_slice == old(self).current_slice
                &&& final(self).current_data_idx == old(self).current_data_idx
                &&& forall|name: Seq<char>|
                    final(self).has_file(name) == old(self).has_file(name)
                &&& forall|name: Seq<char>|
                    old(self).has_file(name) ==> final(self).fcontent(name) == old(
                        self,
                    ).fcontent(name)
            },
            final(self).raid.code() == old(self).raid.code(),
            r.is_err() ==> (r.unwrap_err() == Error::TooManyLost || r.unwrap_err()
                == Error::SingularMatrix),
            (old(self).raid.recoverable() && dev_idxs@.len() <= old(self).raid.c_spec() && (forall|
                k1: int,
                k2: int,
            |
                0 <= k1 < k2 < dev_idxs@.len() ==> (#[trigger] dev_idxs@[k1]) != (
                #[trigger] dev_idxs@[k2]))) ==> r.is_ok(),
    {
        let r = self.raid.destroy_devices(dev_idxs);
        proof {
            // on either outcome the engine's logical content is preserved,
            // so every stored file reads back unchanged
            {
                assert forall|name: Seq<char>| old(self).has_file(name) implies self.fcontent(
                    name,
                ) == old(self).fcontent(name) by {
                    let e = self.file_locations@[self.loc_idx(name)];
                    let g0 = Self::entry_start(e, self.d());
                    assert(self.fcontent(name) =~= old(self).fcontent(name)) by {
                        assert forall|b: int| 0 <= b < e.1.length implies file_byte(
                            self.raid,
                            g0,
                            self.d(),
                            self.x(),
                            b,
                        ) == file_byte(old(self).raid, g0, self.d(), self.x(), b) by {
                            assert(self.raid.content_at(
                                (g0 + b / self.x()) / self.d(),
                                (g0 + b / self.x()) % self.d(),
                            ) == old(self).raid.content_at(
                                (g0 + b / self.x()) / self.d(),
                                (g0 + b / self.x()) % self.d(),
                            ));
                        }
                    }
                }
            }
        }
        r
    }

    /// Release the mapper and its engine.
    pub fn shutdown(self) {
        self.raid.shutdown()
    }

    /// Advance the write cursor by one data position.
    fn increment_data_idx(&mut self)
        requires
            old(self).raid.d_spec() >= 1,
            old(self).current_data_idx < old(self).raid.d_spec(),
            old(self).current_slice < usize::MAX,
        ensures
            final(self).raid == old(self).raid,
            final(self).file_locations == old(self).file_locations,
            final(self).current_data_idx < final(self).d(),
            final(self).gcur() == old(self).gcur() + 1,
            final(self).current_slice >= old(self).current_slice,
            final(self).current_data_idx > 0 ==> final(self).current_slice == old(
                self,
            ).current_slice,
            final(self).current_data_idx == 0 ==> final(self).current_slice == old(
                self,
            ).current_slice + 1,
    {
        let d = self.raid.d_exec();
        self.current_data_idx += 1;
        if self.current_data_idx == d {
            self.current_data_idx = 0;
            self.current_slice += 1;
            proof {
                let s = old(self).current_slice as int;
                assert((s + 1) * d == s * d + d) by (nonlinear_arith);
            }
        }
    }

    /// Read a stored file back: the bytes that were written, exactly.
    #[verifier::rlimit(100)]
    pub fn read_file(&self, name: &str) -> (r: Vec<u8>)
        requires
            self.wf(),
            self.has_file(name@),
        ensures
            r@ == self.fcontent(name@),
    {
        let d = self.raid.d_exec();
        let x = self.raid.x_exec();
        let j = match self.find_entry(name) {
            Some(j) => j,
            None => {
                proof {
                    assert(false);
                }
                0
            },
        };
        proof {
            self.lemma_loc_unique(name@, j as int);
        }
        let entry = &self.file_locations[j];
        let mut walk = FileLocation::new(
            entry.1.start_slice,
            entry.1.start_data_idx,
            entry.1.length,
        );
        let ghost ge = Self::entry_start(self.file_locations@[j as int], d as int);
        let len = walk.length;
        proof {
            lemma_nchunks(len as int, x as int);
            assert(ge >= 0) by (nonlinear_arith)
                requires
                    ge == walk.start_slice * (d as int) + walk.start_data_idx,
                    walk.start_slice >= 0,
                    d >= 1,
                    walk.start_data_idx >= 0,
            ;
        }
        let ghost nc = nchunks(len as int, x as int);
        let mut out: Vec<u8> = Vec::new();
        let ghost mut jj: int = 0;
        while out.len() < len
            invariant
                self.wf(),
                d == self.d(),
                x == self.x(),
                d >= 1,
                x >= 1,
                len == self.file_locations@[self.loc_idx(name@)].1.length,
                ge == Self::entry_start(self.file_locations@[self.loc_idx(name@)], d as int),
                ge >= 0,
                nc == nchunks(len as int, x as int),
                ge + nc <= self.gcur(),
                walk.start_data_idx < d,
                walk.start_slice >= 0,
                walk.start_slice * (d as int) + walk.start_data_idx == ge + jj,
                0 <= jj <= nc,
                out@.len() == (if jj * (x as int) <= len {
                    jj * (x as int)
                } else {
                    len as int
                }),
                out@.len() < len ==> jj < nc,
                forall|b: int|
                    0 <= b < out@.len() ==> #[trigger] out@[b] == file_byte(
                        self.raid,
                        ge,
                        d as int,
                        x as int,
                        b,
                    ),
            decreases len - out@.len(),
        {
            let done = out.len();
            let remaining = len - done;
            let take: usize = if remaining > x {
                x
            } else {
                remaining
            };
            proof {
                assert(jj * (x as int) == done);
                lemma_below_cursor(
                    ge + jj,
                    d as int,
                    self.current_slice as int,
                    self.current_data_idx as int,
                    self.raid.max_slice(),
                );
                lemma_g_join(walk.start_slice as int, walk.start_data_idx as int, d as int);
            }
            let ch = match self.raid.read_data_at(walk.start_slice, walk.start_data_idx) {
                Ok(ch) => ch,
                Err(_) => {
                    proof {
                        assert(false);
                    }
                    Vec::new()
                },
            };
            proof {
                self.raid.content_wf(walk.start_slice as int, walk.start_data_idx as int);
            }
            let mut q: usize = 0;
            while q < take
                invariant
                    q <= take,
                    take <= x,
                    done + take <= len,
                    len <= usize::MAX,
                    out@.len() == done + q,
                    ch@.len() == x,
                    ch@ == self.raid.content_at(
                        ((ge + jj) / (d as int)) as int,
                        ((ge + jj) % (d as int)) as int,
                    ),
                    done == jj * (x as int),
                    ge >= 0,
                    0 <= jj,
                    d >= 1,
                    x >= 1,
                    forall|b: int|
                        0 <= b < done + q ==> #[trigger] out@[b] == (if b < done {
                            file_byte(self.raid, ge, d as int, x as int, b)
                        } else {
                            ch@[b - done]
                        }),
                decreases take - q,
            {
                out.push(ch[q]);
                q += 1;
            }
            proof {
                assert forall|b: int| done <= b < done + take implies #[trigger] out@[b]
                    == file_byte(self.raid, ge, d as int, x as int, b) by {
                    assert(b == jj * (x as int) + (b - done));
                    lemma_g_join(jj, b - done, x as int);
                    assert(b / (x as int) == jj && b % (x as int) == b - done);
                    assert(out@[b] == ch@[b - done]);
                }
                assert forall|b: int| 0 <= b < done implies #[trigger] out@[b] == file_byte(
                    self.raid,
                    ge,
                    d as int,
                    x as int,
                    b,
                ) by {}
                // the cursor stays valid for the next chunk
                assert((jj + 1) * (x as int) == jj * (x as int) + x) by (nonlinear_arith);
                if done + take < len {
                    assert(jj + 1 < nc) by {
                        lemma_nchunks(len as int, x as int);
                        assert(((done + take) as int) / (x as int) < nc);
                        lemma_g_join(jj + 1, 0, x as int);
                    }
                }
            }
            walk.increment_data_idx(d);
            proof {
                jj = jj + 1;
            }
        }
        proof {
            assert(out@ =~= self.fcontent(name@));
        }
        out
    }

    /// Overlay `content` at byte `offset` of a stored file, updating each
    /// affected chunk in place through the engine's incremental parity
    /// maintenance.
    #[verifier::rlimit(100)]
    pub fn update_file(&mut self, name: &str, content: &[u8], offset: usize)
        requires
            old(self).wf(),
            old(self).has_file(name@),
            offset + content@.len() <= old(self).file_locations@[old(self).loc_idx(
                name@,
            )].1.length,
            old(self).file_locations@[old(self).loc_idx(name@)].1.length + old(self).x()
                <= usize::MAX,
        ensures
            final(self).wf(),
            final(self).d() == old(self).d(),
            final(self).x() == old(self).x(),
            final(self).raid.code() == old(self).raid.code(),
            final(self).file_locations == old(self).file_locations,
            forall|n2: Seq<char>| final(self).has_file(n2) == old(self).has_file(n2),
            final(self).fcontent(name@) == Seq::new(
                old(self).fcontent(name@).len(),
                |b: int|
                    if offset <= b < offset + content@.len() {
                        content@[b - offset]
                    } else {
                        old(self).fcontent(name@)[b]
                    },
            ),
            forall|n2: Seq<char>|
                n2 != name@ && old(self).has_file(n2) ==> final(self).fcontent(n2) == old(
                    self,
                ).fcontent(n2),
    {
        let d = self.raid.d_exec();
        let x = self.raid.x_exec();
        let clen = content.len();
        let ghost os = *self;
        let j = match self.find_entry(name) {
            Some(j) => j,
            None => {
                proof {
                    assert(false);
                }
                0
            },
        };
        proof {
            self.lemma_loc_unique(name@, j as int);
        }
        let entry = &self.file_locations[j];
        let mut walk = FileLocation::new(
            entry.1.start_slice,
            entry.1.start_data_idx,
            entry.1.length,
        );
        let ghost ge = Self::entry_start(self.file_locations@[j as int], d as int);
        let len = walk.length;
        proof {
            lemma_nchunks(len as int, x as int);
            assert(ge >= 0) by (nonlinear_arith)
                requires
                    ge == walk.start_slice * (d as int) + walk.start_data_idx,
                    walk.start_slice >= 0,
                    d >= 1,
                    walk.start_data_idx >= 0,
            ;
        }
        let ghost nc = nchunks(len as int, x as int);
        let mut visited: usize = 0;
        let ghost mut jj: int = 0;
        while visited < len
            invariant
                os.wf(),
                d == os.d(),
                x == os.x(),
                d >= 1,
                x >= 1,
                clen == content@.len(),
                offset + clen <= len,
                len + x <= usize::MAX,
                self.file_locations == os.file_locations,
                self.current_slice == os.current_slice,
                self.current_data_idx == os.current_data_idx,
                self.raid.wf(),
                self.raid.whole(),
                self.raid.d_spec() == d,
                self.raid.x_spec() == x,
                self.raid.code() == os.raid.code(),
                self.raid.max_slice() == os.raid.max_slice(),
                len == os.file_locations@[os.loc_idx(name@)].1.length,
                ge == Self::entry_start(os.file_locations@[os.loc_idx(name@)], d as int),
                ge >= 0,
                nc == nchunks(len as int, x as int),
                ge + nc <= os.gcur(),
                walk.start_data_idx < d,
                walk.start_slice >= 0,
                walk.start_slice * (d as int) + walk.start_data_idx == ge + jj,
                0 <= jj <= nc,
                visited == (if jj * (x as int) <= len {
                    jj * (x as int)
                } else {
                    len as int
                }),
                visited < len ==> jj < nc,
                // chunks outside this file's run are untouched
                forall|s: int, i: int|
                    0 <= s && 0 <= i < d && !(ge <= s * (d as int) + i < ge + nc)
                        ==> #[trigger] self.raid.content_at(s, i) == os.raid.content_at(s, i),
                // processed bytes hold the overlay, the rest the old bytes
                forall|b: int|
                    0 <= b < len ==> #[trigger] file_byte(self.raid, ge, d as int, x as int, b)
                        == (if b < visited && offset <= b < offset + clen {
                        content@[b - offset]
                    } else {
                        file_byte(os.raid, ge, d as int, x as int, b)
                    }),
            decreases len - visited,
        {
            let remaining = len - visited;
            let take: usize = if remaining > x {
                x
            } else {
                remaining
            };
            // the window of the update that falls into this chunk
            let lo: usize = if offset > visited {
                offset
            } else {
                visited
            };
            let hi_f: usize = offset + clen;
            let hi: usize = if hi_f < visited + x {
                hi_f
            } else {
                visited + x
            };
            proof {
                assert(jj * (x as int) == visited);
                lemma_below_cursor(
                    ge + jj,
                    d as int,
                    os.current_slice as int,
                    os.current_data_idx as int,
                    os.raid.max_slice(),
                );
                lemma_g_join(walk.start_slice as int, walk.start_data_idx as int, d as int);
            }
            if lo < hi {
                let mut ch = match self.raid.read_data_at(walk.start_slice, walk.start_data_idx) {
                    Ok(ch) => ch,
                    Err(_) => {
                        proof {
                            assert(false);
                        }
                        Vec::new()
                    },
                };
                proof {
                    self.raid.content_wf(walk.start_slice as int, walk.start_data_idx as int);
                }
                let ghost ch0 = ch@;
                let mut q: usize = lo;
                while q < hi
                    invariant
                        lo <= q <= hi,
                        visited <= lo,
                        hi <= visited + x,
                        offset <= lo,
                        hi <= offset + clen,
                        clen == content@.len(),
                        ch@.len() == x,
                        forall|p: int|
                            0 <= p < x ==> #[trigger] ch@[p] == (if lo - visited <= p < q - visited {
                                content@[visited + p - offset]
                            } else {
                                ch0[p]
                            }),
                    decreases hi - q,
                {
                    let pos = q - visited;
                    let v = content[q - offset];
                    ch[pos] = v;
                    q += 1;
                }
                let ghost pre = *self;
                self.raid.update_data(&ch, walk.start_slice, walk.start_data_idx);
                proof {
                    let di = d as int;
                    let xi = x as int;
                    let gs = (ge + jj) / di;
                    let gi = (ge + jj) % di;
                    assert(self.raid.content_at(gs, gi) == ch@);
                    assert forall|s: int, i: int|
                        0 <= s && 0 <= i < d && !(ge <= s * di + i < ge + nc) implies #[trigger] self.raid.content_at(
                        s,
                        i,
                    ) == os.raid.content_at(s, i) by {
                        assert(gs * di + gi == ge + jj);
                        assert(s != gs || i != gi);
                        assert(self.raid.content_at(s, i) == pre.raid.content_at(s, i));
                    }
                    assert forall|b: int|
                        0 <= b < len implies #[trigger] file_byte(self.raid, ge, di, xi, b) == (
                    if b < visited + take && offset <= b < offset + clen {
                        content@[b - offset]
                    } else {
                        file_byte(os.raid, ge, di, xi, b)
                    }) by {
                        lemma_nchunks(len as int, xi);
                        let bj = b / xi;
                        let bp = b % xi;
                        lemma_g_split(b, xi);
                        lemma_g_split(ge + bj, di);
                        assert(file_byte(pre.raid, ge, di, xi, b) == (if b < visited && offset
                            <= b < offset + clen {
                            content@[b - offset]
                        } else {
                            file_byte(os.raid, ge, di, xi, b)
                        }));
                        if bj == jj {
                            assert(b - visited == bp) by {
                                lemma_g_join(jj, b - visited, xi);
                            }
                            assert(file_byte(self.raid, ge, di, xi, b) == ch@[bp]);
                            assert(b >= visited);
                            if lo - visited <= bp < hi - visited {
                                assert(offset <= b < offset + clen);
                                assert(ch@[bp] == content@[visited + bp - offset]);
                            } else {
                                assert(ch@[bp] == ch0[bp]);
                                assert(ch0[bp] == file_byte(pre.raid, ge, di, xi, b));
                                assert(!(offset <= b < offset + clen && b < visited + take)) by {
                                    if offset <= b < offset + clen && b < visited + take {
                                        assert(lo <= b < hi);
                                        assert(lo - visited <= bp < hi - visited);
                                    }
                                }
                            }
                        } else {
                            let s2 = (ge + bj) / di;
                            let i2 = (ge + bj) % di;
                            assert(s2 * di + i2 == ge + bj);
                            assert(s2 != gs || i2 != gi) by {
                                if s2 == gs && i2 == gi {
                                    assert(ge + bj == ge + jj);
                                }
                            }
                            assert(self.raid.content_at(s2, i2) == pre.raid.content_at(s2, i2));
                            assert(file_byte(self.raid, ge, di, xi, b) == file_byte(
                                pre.raid,
                                ge,
                                di,
                                xi,
                                b,
                            ));
                            assert(!(visited <= b < visited + take)) by {
                                if visited <= b < visited + take {
                                    lemma_g_join(jj, b - visited, xi);
                                }
                            }
                        }
                    }
                }
            } else {
                proof {
                    let di = d as int;
                    let xi = x as int;
                    assert forall|b: int|
                        0 <= b < len implies #[trigger] file_byte(self.raid, ge, di, xi, b) == (
                    if b < visited + take && offset <= b < offset + clen {
                        content@[b - offset]
                    } else {
                        file_byte(os.raid, ge, di, xi, b)
                    }) by {
                        assert(file_byte(self.raid, ge, di, xi, b) == (if b < visited && offset
                            <= b < offset + clen {
                            content@[b - offset]
                        } else {
                            file_byte(os.raid, ge, di, xi, b)
                        }));
                        if visited <= b < visited + take && offset <= b < offset + clen {
                            assert(lo <= b < hi);
                        }
                    }
                }
            }
            proof {
                assert((jj + 1) * (x as int) == jj * (x as int) + x) by (nonlinear_arith);
                if visited + take < len {
                    assert(jj + 1 < nc) by {
                        lemma_nchunks(len as int, x as int);
                        assert(((visited + take) as int) / (x as int) < nc);
                        lemma_g_join(jj + 1, 0, x as int);
                    }
                }
            }
            visited = visited + take;
            walk.increment_data_idx(d);
            proof {
                jj = jj + 1;
            }
        }
        proof {
            // the invariant and the entry table rebuild well-formedness
            assert forall|s: int, i: int|
                0 <= s && 0 <= i < d && s * (d as int) + i >= self.gcur()
                    implies #[trigger] self.raid.content_at(s, i) == zero_seq(x as int) by {
                assert(!(ge <= s * (d as int) + i < ge + nc));
                assert(os.raid.content_at(s, i) == zero_seq(x as int));
            }
            assert(self.wf());
            self.lemma_loc_unique(name@, j as int);
            os.lemma_loc_unique(name@, j as int);
            // the named file holds the overlay
            assert(self.fcontent(name@) =~= Seq::new(
                os.fcontent(name@).len(),
                |b: int|
                    if offset <= b < offset + content@.len() {
                        content@[b - offset]
                    } else {
                        os.fcontent(name@)[b]
                    },
            ));
            // every other file is untouched
            assert forall|n2: Seq<char>|
                n2 != name@ && os.has_file(n2) implies self.fcontent(n2) == os.fcontent(n2) by {
                let k = choose|k: int|
                    0 <= k < os.file_locations@.len() && (#[trigger] os.file_locations@[k]).0@
                        == n2;
                self.lemma_loc_unique(n2, k);
                os.lemma_loc_unique(n2, k);
                let e = os.file_locations@[k];
                let ge2 = Self::entry_start(e, d as int);
                let elen = e.1.length as int;
                assert(k != j) by {
                    if k == j {
                        assert(os.file_locations@[j as int].0@ == name@);
                    }
                }
                assert(ge2 + nchunks(elen, x as int) <= ge || ge + nchunks(len as int, x as int)
                    <= ge2);
                lemma_nchunks(elen, x as int);
                assert forall|b: int| 0 <= b < elen implies file_byte(
                    self.raid,
                    ge2,
                    d as int,
                    x as int,
                    b,
                ) == file_byte(os.raid, ge2, d as int, x as int, b) by {
                    lemma_g_split(b, x as int);
                    assert(b / (x as int) < nchunks(elen, x as int));
                    assert(ge2 >= 0) by (nonlinear_arith)
                        requires
                            ge2 == e.1.start_slice * (d as int) + e.1.start_data_idx,
                            e.1.start_slice >= 0,
                            d >= 1,
                            e.1.start_data_idx >= 0,
                    ;
                    lemma_g_split(ge2 + b / (x as int), d as int);
                    assert(!(ge <= ge2 + b / (x as int) < ge + nc));
                }
                assert(self.fcontent(n2) =~= os.fcontent(n2));
            }
            assert forall|n2: Seq<char>| true implies self.has_file(n2) == os.has_file(n2) by {}
        }
    }

    /// Store a named byte stream: append its chunks at the write cursor,
    /// zero-padding the partial trailing chunk, and record its location.
    /// A file of the same name is replaced.  The file lands exactly at the
    /// old write cursor, and the cursor advances by the file's chunk
    /// count.
    #[verifier::rlimit(100)]
    pub fn add_file(&mut self, name: String, content: &[u8])
        requires
            old(self).wf(),
            old(self).gcur() + content@.len() + old(self).x() + old(self).d() + 1 <= usize::MAX,
        ensures
            final(self).wf(),
            final(self).d() == old(self).d(),
            final(self).x() == old(self).x(),
            final(self).raid.code() == old(self).raid.code(),
            final(self).has_file(name@),
            final(self).fcontent(name@) == content@,
            final(self).file_locations@[final(self).loc_idx(name@)].1.start_slice == old(
                self,
            ).current_slice,
            final(self).file_locations@[final(self).loc_idx(name@)].1.start_data_idx == old(
                self,
            ).current_data_idx,
            final(self).file_locations@[final(self).loc_idx(name@)].1.length == content@.len(),
            final(self).gcur() == old(self).gcur() + nchunks(
                content@.len() as int,
                old(self).x(),
            ),
            forall|n2: Seq<char>|
                n2 != name@ ==> (final(self).has_file(n2) <==> old(self).has_file(n2)),
            forall|n2: Seq<char>|
                n2 != name@ && old(self).has_file(n2) ==> final(self).fcontent(n2) == old(
                    self,
                ).fcontent(n2),
    {
        let d = self.raid.d_exec();
        let x = self.raid.x_exec();
        let loc = FileLocation::new(self.current_slice, self.current_data_idx, content.len());
        let ghost os = *self;
        let ghost g0 = os.gcur();
        let len = content.len();
        let full: usize = len / x;
        let rem: usize = len % x;
        let nc: usize = if rem > 0 {
            full + 1
        } else {
            full
        };
        proof {
            lemma_nchunks(len as int, x as int);
            assert(nc == nchunks(len as int, x as int));
            assert(g0 >= 0) by (nonlinear_arith)
                requires
                    g0 == os.current_slice * os.d() + os.current_data_idx,
                    os.current_slice >= 0,
                    os.d() >= 1,
                    os.current_data_idx >= 0,
            ;
        }
        let mut j: usize = 0;
        while j < nc
            invariant
                os.wf(),
                j <= nc,
                d == os.d(),
                x == os.x(),
                d >= 1,
                x >= 1,
                len == content@.len(),
                nc == nchunks(len as int, x as int),
                nc <= len + 1,
                g0 == os.gcur(),
                g0 >= 0,
                g0 + len + x + d + 1 <= usize::MAX,
                self.raid.d_spec() == d,
                self.raid.x_spec() == x,
                self.raid.code() == os.raid.code(),
                self.raid.wf(),
                self.raid.whole(),
                self.raid.max_slice() < usize::MAX,
                self.file_locations == os.file_locations,
                self.current_data_idx < d,
                self.current_slice <= self.raid.max_slice() + 1,
                self.current_data_idx > 0 ==> self.current_slice <= self.raid.max_slice(),
                self.gcur() == g0 + j,
                forall|s: int, i: int|
                    0 <= s && 0 <= i < d && s * (d as int) + i >= g0 + j
                        ==> #[trigger] self.raid.content_at(s, i) == zero_seq(x as int),
                forall|jj: int, p: int|
                    0 <= jj < j && 0 <= p < x ==> #[trigger] self.raid.content_at(
                        (g0 + jj) / (d as int),
                        (g0 + jj) % (d as int),
                    )[p] == (if jj * (x as int) + p < len {
                        content@[jj * (x as int) + p]
                    } else {
                        0u8
                    }),
                forall|s: int, i: int|
                    0 <= s && 0 <= i < d && s * (d as int) + i < g0 ==> #[trigger] self.raid.content_at(
                        s,
                        i,
                    ) == os.raid.content_at(s, i),
            decreases nc - j,
        {
            // The zero-padded chunk j of the content.
            proof {
                lemma_nchunks(len as int, x as int);
                let xi = x as int;
                let nci = nc as int;
                let ji = j as int;
                vstd::arithmetic::div_mod::lemma_fundamental_div_mod(len + xi - 1, xi);
                vstd::arithmetic::div_mod::lemma_mod_division_less_than_divisor(len + xi - 1, xi);
                assert(xi * nci <= len + xi - 1);
                assert(ji * xi <= len) by (nonlinear_arith)
                    requires
                        ji <= nci - 1,
                        xi >= 1,
                        xi * nci <= len + xi - 1,
                ;
            }
            let base = j * x;
            let mut chunk: Vec<u8> = Vec::new();
            let mut p: usize = 0;
            while p < x
                invariant
                    p <= x,
                    base == j * x,
                    base <= len,
                    len == content@.len(),
                    len + x <= usize::MAX,
                    chunk@.len() == p,
                    forall|q: int|
                        0 <= q < p ==> chunk@[q] == (if base + q < len {
                            content@[base + q]
                        } else {
                            0u8
                        }),
                decreases x - p,
            {
                let b = base + p;
                let v: u8 = if b < len {
                    content[b]
                } else {
                    0
                };
                chunk.push(v);
                p += 1;
            }

            let ghost cs = self.current_slice as int;
            let ghost ci = self.current_data_idx as int;
            proof {
                lemma_g_join(cs, ci, d as int);
                assert(self.raid.content_at(cs, ci) == zero_seq(x as int));
                assert(cs <= cs * (d as int) + ci) by (nonlinear_arith)
                    requires
                        d >= 1,
                        cs >= 0,
                        ci >= 0,
                ;
                assert(cs * (d as int) + ci == g0 + j);
            }
            let ghost pre = *self;
            self.raid.add_data_at(&chunk, self.current_slice, self.current_data_idx);
            proof {
                assert(self.raid.content_at(cs, ci) == chunk@);
                // freshness moves one position forward
                assert forall|s: int, i: int|
                    0 <= s && 0 <= i < d && s * (d as int) + i >= g0 + j + 1 implies #[trigger] self.raid.content_at(
                    s,
                    i,
                ) == zero_seq(x as int) by {
                    assert(s * (d as int) + i != cs * (d as int) + ci);
                    assert(s != cs || i != ci);
                    assert(self.raid.content_at(s, i) == pre.raid.content_at(s, i));
                }
                // the new chunk is recorded; the earlier ones survive
                assert forall|jj: int, p2: int|
                    0 <= jj < j + 1 && 0 <= p2 < x implies #[trigger] self.raid.content_at(
                    (g0 + jj) / (d as int),
                    (g0 + jj) % (d as int),
                )[p2] == (if jj * (x as int) + p2 < len {
                    content@[jj * (x as int) + p2]
                } else {
                    0u8
                }) by {
                    lemma_g_split(g0 + jj, d as int);
                    if jj == j as int {
                        assert((g0 + jj) / (d as int) == cs && (g0 + jj) % (d as int) == ci) by {
                            lemma_g_join(cs, ci, d as int);
                        }
                        assert(chunk@[p2] == (if jj * (x as int) + p2 < len {
                            content@[jj * (x as int) + p2]
                        } else {
                            0u8
                        }));
                    } else {
                        let s2 = (g0 + jj) / (d as int);
                        let i2 = (g0 + jj) % (d as int);
                        assert(s2 * (d as int) + i2 == g0 + jj);
                        assert(s2 != cs || i2 != ci);
                        assert(self.raid.content_at(s2, i2) == pre.raid.content_at(s2, i2));
                        assert(pre.raid.content_at(s2, i2)[p2] == (if jj * (x as int) + p2 < len {
                            content@[jj * (x as int) + p2]
                        } else {
                            0u8
                        }));
                    }
                }
                // everything below the file start is untouched
                assert forall|s: int, i: int|
                    0 <= s && 0 <= i < d && s * (d as int) + i < g0 implies #[trigger] self.raid.content_at(
                    s,
                    i,
                ) == os.raid.content_at(s, i) by {
                    assert(s != cs || i != ci);
                    assert(self.raid.content_at(s, i) == pre.raid.content_at(s, i));
                    assert(pre.raid.content_at(s, i) == os.raid.content_at(s, i));
                }
                // the cursor may enter the next slice
                assert(self.current_slice < usize::MAX);
            }
            self.increment_data_idx();
            j += 1;
        }

        // Record where the file lives.
        let ghost mid = *self;
        let idx_new: usize;
        match self.find_entry(name.as_str()) {
            Some(jj) => {
                proof {
                    mid.lemma_loc_unique(name@, jj as int);
                    assert forall|k: int|
                        0 <= k < mid.file_locations@.len() && k != jj implies (
                    #[trigger] mid.file_locations@[k]).0@ != name@ by {
                        if k < jj {
                            assert(mid.file_locations@[k].0@ != mid.file_locations@[jj as int].0@);
                        } else {
                            assert(mid.file_locations@[jj as int].0@ != mid.file_locations@[k].0@);
                        }
                    }
                }
                let e = vstd::std_specs::vec::vec_index_mut(&mut self.file_locations, jj);
                *e = (name, loc);
                idx_new = jj;
            },
            None => {
                self.file_locations.push((name, loc));
                idx_new = self.file_locations.len() - 1;
                proof {
                    assert forall|k: int|
                        0 <= k < mid.file_locations@.len() implies (
                    #[trigger] mid.file_locations@[k]).0@ != name@ by {
                        if mid.file_locations@[k].0@ == name@ {
                            assert(mid.has_file(name@));
                        }
                    }
                }
            },
        }
        proof {
            let fl = self.file_locations@;
            let dd = d as int;
            let xx = x as int;
            assert(self.raid == mid.raid);
            assert(0 <= idx_new < fl.len());
            assert(fl[idx_new as int].0@ == name@);
            assert(fl[idx_new as int].1 == loc);
            assert(forall|k: int|
                0 <= k < fl.len() && k != idx_new ==> #[trigger] fl[k] == os.file_locations@[k]
                    && fl[k].0@ != name@);
            assert(Self::entry_start(fl[idx_new as int], dd) == g0);
            assert(self.gcur() == g0 + nc);
            lemma_nchunks(len as int, xx);

            // the invariant holds of the updated table
            assert forall|k: int| 0 <= k < fl.len() implies Self::entry_ok(
                #[trigger] fl[k],
                dd,
                xx,
                self.gcur(),
            ) by {
                if k == idx_new as int {
                    assert(loc.start_data_idx < d);
                    assert(nchunks(loc.length as int, xx) == nc);
                } else {
                    assert(Self::entry_ok(os.file_locations@[k], dd, xx, g0));
                    assert(nc >= 0);
                }
            }
            assert forall|j1: int, j2: int| 0 <= j1 < j2 < fl.len() implies (
            #[trigger] fl[j1]).0@ != (#[trigger] fl[j2]).0@ by {
                if j1 != idx_new && j2 != idx_new {
                    assert(os.file_locations@[j1].0@ != os.file_locations@[j2].0@);
                }
            }
            assert forall|j1: int, j2: int|
                0 <= j1 < fl.len() && 0 <= j2 < fl.len() && j1 != j2 implies Self::entry_start(
                #[trigger] fl[j1],
                dd,
            ) + nchunks(fl[j1].1.length as int, xx) <= Self::entry_start(#[trigger] fl[j2], dd)
                || Self::entry_start(fl[j2], dd) + nchunks(fl[j2].1.length as int, xx)
                <= Self::entry_start(fl[j1], dd) by {
                if j1 == idx_new as int {
                    assert(Self::entry_ok(os.file_locations@[j2], dd, xx, g0));
                } else if j2 == idx_new as int {
                    assert(Self::entry_ok(os.file_locations@[j1], dd, xx, g0));
                } else {
                    assert(Self::entry_ok(os.file_locations@[j1], dd, xx, g0));
                    assert(Self::entry_ok(os.file_locations@[j2], dd, xx, g0));
                }
            }
            assert(self.wf());

            // reading the new file back gives exactly the written bytes
            assert forall|b: int| 0 <= b < len implies file_byte(self.raid, g0, dd, xx, b)
                == content@[b] by {
                vstd::arithmetic::div_mod::lemma_fundamental_div_mod(b, xx);
                vstd::arithmetic::div_mod::lemma_mod_division_less_than_divisor(b, xx);
                vstd::arithmetic::div_mod::lemma_div_pos_is_pos(b, xx);
                let jj = b / xx;
                let p2 = b % xx;
                assert(jj < nc);
                assert(jj * xx + p2 == b) by (nonlinear_arith)
                    requires
                        b == xx * jj + p2,
                ;
                assert(mid.raid.content_at((g0 + jj) / dd, (g0 + jj) % dd)[p2] == content@[b]);
            }
            self.lemma_loc_unique(name@, idx_new as int);
            assert(self.fcontent(name@) =~= content@);

            // every other stored file is byte-for-byte untouched
            assert forall|n2: Seq<char>|
                n2 != name@ && old(self).has_file(n2) implies self.has_file(n2) && self.fcontent(
                n2,
            ) == old(self).fcontent(n2) by {
                let k = choose|k: int|
                    0 <= k < os.file_locations@.len() && (#[trigger] os.file_locations@[k]).0@
                        == n2;
                assert(os.file_locations@[k].0@ == n2);
                assert(k != idx_new ==> fl[k] == os.file_locations@[k]);
                assert(k == idx_new ==> false) by {
                    if k == idx_new as int {
                        assert(fl[k].0@ == name@);
                    }
                }
                assert(fl[k] == os.file_locations@[k]);
                self.lemma_loc_unique(n2, k);
                os.lemma_loc_unique(n2, k);
                let e = os.file_locations@[k];
                let ge = Self::entry_start(e, dd);
                assert(Self::entry_ok(e, dd, xx, g0));
                lemma_nchunks(e.1.length as int, xx);
                assert forall|b: int| 0 <= b < e.1.length implies file_byte(
                    self.raid,
                    ge,
                    dd,
                    xx,
                    b,
                ) == file_byte(os.raid, ge, dd, xx, b) by {
                    vstd::arithmetic::div_mod::lemma_fundamental_div_mod(b, xx);
                    vstd::arithmetic::div_mod::lemma_mod_division_less_than_divisor(b, xx);
                    vstd::arithmetic::div_mod::lemma_div_pos_is_pos(b, xx);
                    assert(b / xx < nchunks(e.1.length as int, xx));
                    lemma_g_split(ge + b / xx, dd);
                    assert(ge + b / xx < g0);
                    assert(self.raid.content_at((ge + b / xx) / dd, (ge + b / xx) % dd)
                        == os.raid.content_at((ge + b / xx) / dd, (ge + b / xx) % dd));
                }
                assert(self.fcontent(n2) =~= os.fcontent(n2));
            }
            // and no file appears or disappears besides the new one
            assert forall|n2: Seq<char>| n2 != name@ && self.has_file(n2) implies old(
                self,
            ).has_file(n2) by {
                let k = choose|k: int|
                    0 <= k < fl.len() && (#[trigger] fl[k]).0@ == n2;
                assert(fl[k] == os.file_locations@[k]);
                assert(os.has_file(n2));
            }
        }
    }
}

} // verus!
