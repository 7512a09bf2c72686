//! A simulated block device, and a storage session that runs the verified
//! mass-storage core against it.
//!
//! The simulated disk answers READ(10) and WRITE(10) at the block level and
//! records every command it is given. The session wires the core's plans
//! and applies to the disk, so byte-reads, byte-writes, seeks and flushes
//! are verified end to end: the session behaves as one byte store whose
//! contents are the disk overlaid with the dirty cache entries, and a flush
//! publishes exactly those contents to the disk.

use vstd::prelude::*;

use crate::cache::{contains_block, data_of, dirty_of, CacheEntry};
use crate::storage::{
    views_of, write_back_has, BlockWrite, MassStorageDevice, MassStorageDeviceError,
    MassStorageDeviceProperties, SeekFrom,
};
use crate::util::copy_bytes;

verus! {

/// One block command a device received: a read or a write of `count`
/// blocks starting at `lba`.
#[derive(Clone, Copy, Debug, PartialEq, Eq, Structural)]
pub struct IssuedCommand {
    pub is_write: bool,
    pub lba: u32,
    pub count: u32,
}

/// An in-memory block device that records the commands it serves.
pub struct SimulatedDisk {
    blocks: u32,
    data: Vec<u8>,
    log: Vec<IssuedCommand>,
}

impl SimulatedDisk {
    /// The device's bytes.
    pub closed spec fn contents(&self) -> Seq<u8> {
        self.data@
    }

    /// Every command served so far, oldest first.
    pub closed spec fn log(&self) -> Seq<IssuedCommand> {
        self.log@
    }

    /// How many blocks the device has.
    pub closed spec fn spec_blocks(&self) -> u32 {
        self.blocks
    }

    /// The device holds exactly its blocks' bytes.
    pub open spec fn wf(&self) -> bool {
        self.contents().len() == self.spec_blocks() as int * 512
    }

    /// A device of `blocks` blocks holding `data`.
    pub fn new(blocks: u32, data: Vec<u8>) -> (r: SimulatedDisk)
        requires
            data@.len() == blocks as int * 512,
        ensures
            r.wf(),
            r.contents() == data@,
            r.log().len() == 0,
            r.spec_blocks() == blocks,
    {
        SimulatedDisk { blocks, data, log: Vec::new() }
    }

    /// How many blocks the device has.
    pub fn total_blocks(&self) -> (r: u32)
        ensures
            r == self.spec_blocks(),
    {
        self.blocks
    }

    /// A copy of the device's bytes.
    pub fn snapshot(&self) -> (r: Vec<u8>)
        ensures
            r@ == self.contents(),
    {
        copy_bytes(&self.data)
    }

    /// A copy of the command log.
    pub fn commands(&self) -> (r: Vec<IssuedCommand>)
        ensures
            r@ == self.log(),
    {
        let mut r: Vec<IssuedCommand> = Vec::new();
        let mut i: usize = 0;
        let n = self.log.len();
        while i < n
            invariant
                i <= n == self.log().len(),
                r@ == self.log().subrange(0, i as int),
            decreases n - i,
        {
            r.push(self.log[i]);
            proof {
                assert(r@ =~= self.log().subrange(0, i + 1));
            }
            i = i + 1;
        }
        proof {
            assert(self.log().subrange(0, n as int) =~= self.log());
        }
        r
    }

    /// Serves a READ(10): returns the bytes of `count` blocks starting at
    /// `lba` and logs the command.
    pub fn read_blocks(&mut self, lba: u32, count: u16) -> (r: Vec<u8>)
        requires
            old(self).wf(),
            lba + count <= old(self).spec_blocks(),
        ensures
            final(self).wf(),
            final(self).contents() == old(self).contents(),
            final(self).spec_blocks() == old(self).spec_blocks(),
            r@ == old(self).contents().subrange(
                lba as int * 512,
                (lba + count) * 512,
            ),
            final(self).log() == old(self).log().push(
                IssuedCommand { is_write: false, lba, count: count as u32 },
            ),
    {
        self.log.push(IssuedCommand { is_write: false, lba, count: count as u32 });
        proof {
            assert(self.data@.len() <= usize::MAX) by {
                assert(self.data.len() == self.data@.len());
            }
        }
        let lo: usize = (lba as usize) * 512;
        let hi: usize = lo + (count as usize) * 512;
        crate::util::copy_range(&self.data, lo, hi)
    }

    /// Serves a WRITE(10): overwrites `count` blocks starting at `lba` with
    /// `data` and logs the command.
    pub fn write_blocks(&mut self, lba: u32, count: u32, data: &Vec<u8>) -> (r: usize)
        requires
            old(self).wf(),
            lba + count <= old(self).spec_blocks(),
            data@.len() == count * 512,
        ensures
            final(self).wf(),
            final(self).spec_blocks() == old(self).spec_blocks(),
            final(self).contents().len() == old(self).contents().len(),
            forall|a: int|
                0 <= a < old(self).contents().len() ==> final(self).contents()[a] == if lba * 512
                    <= a < (lba + count) * 512 {
                    data@[a - lba * 512]
                } else {
                    old(self).contents()[a]
                },
            final(self).log() == old(self).log().push(
                IssuedCommand { is_write: true, lba, count },
            ),
            r == data@.len(),
    {
        self.log.push(IssuedCommand { is_write: true, lba, count });
        proof {
            assert(self.data@.len() <= usize::MAX) by {
                assert(self.data.len() == self.data@.len());
            }
        }
        let lo: usize = (lba as usize) * 512;
        let n = data.len();
        crate::util::splice_bytes(&mut self.data, lo, data, 0, n);
        n
    }
}


/// Whether some write in `ws[..upto]` targets block `b`.
pub open spec fn wb_covers(ws: Seq<BlockWrite>, upto: int, b: int) -> bool {
    exists|k: int| 0 <= k < upto && (#[trigger] ws[k]).lba == b
}

/// The position of the write in `ws[..upto]` targeting block `b`.
pub open spec fn wb_index(ws: Seq<BlockWrite>, upto: int, b: int) -> int {
    choose|k: int| 0 <= k < upto && (#[trigger] ws[k]).lba == b
}

/// The byte store a session presents: the disk's bytes, with each dirty
/// cache entry's bytes standing in for its block.
pub open spec fn view_byte(s: Seq<CacheEntry>, disk: Seq<u8>, addr: int) -> u8 {
    let b = addr / 512;
    if contains_block(s, b as u32) && dirty_of(s, b as u32) {
        data_of(s, b as u32)[addr % 512]
    } else {
        disk[addr]
    }
}

/// Every clean cache entry agrees with the disk.
pub open spec fn coherent(s: Seq<CacheEntry>, disk: Seq<u8>) -> bool {
    forall|b: u32|
        #[trigger] contains_block(s, b) && !dirty_of(s, b) ==> data_of(s, b) == disk.subrange(
            b as int * 512,
            b as int * 512 + 512,
        )
}


/// With nothing cached, a byte-read is a slice of one block read: the
/// bytes at `offset` for `len` equal the blocks from `offset / 512`,
/// rounded up to cover `offset % 512 + len` bytes, sliced from
/// `offset % 512`.
pub proof fn lemma_uncached_read_equals_block_read(
    cache: Seq<CacheEntry>,
    disk: Seq<u8>,
    offset: int,
    len: int,
)
    requires
        cache.len() == 0,
        0 <= offset,
        0 <= len,
        offset + len <= disk.len(),
        disk.len() % 512 == 0,
    ensures
        ({
            let first = offset / 512;
            let count = (offset % 512 + len + 511) / 512;
            &&& first * 512 + count * 512 <= disk.len()
            &&& forall|j: int|
                0 <= j < len ==> #[trigger] view_byte(cache, disk, offset + j) == disk.subrange(
                    first * 512,
                    first * 512 + count * 512,
                )[offset % 512 + j]
        }),
{
    let first = offset / 512;
    let count = (offset % 512 + len + 511) / 512;
    crate::storage::lemma_block_span(offset);
    crate::storage::lemma_block_span(offset % 512 + len + 511);
    crate::storage::lemma_block_span(disk.len() as int);
    assert(first * 512 + count * 512 <= disk.len()) by {
        assert(count * 512 <= offset % 512 + len + 511);
        assert(first * 512 + count * 512 < offset + len + 512);
        let e = first * 512 + count * 512;
        let l = disk.len() as int;
        assert(e % 512 == 0) by {
            vstd::arithmetic::div_mod::lemma_fundamental_div_mod_converse(
                e,
                512,
                first + count,
                0,
            );
        }
        assert(l % 512 == 0);
        assert(e < l + 512);
        assert(e <= l) by {
            vstd::arithmetic::div_mod::lemma_fundamental_div_mod(e, 512);
            vstd::arithmetic::div_mod::lemma_fundamental_div_mod(l, 512);
            assert(e == 512 * (e / 512) && l == 512 * (l / 512));
            assert(512 * (e / 512) < 512 * (l / 512) + 512);
            assert(e / 512 < l / 512 + 1) by (nonlinear_arith)
                requires
                    512 * (e / 512) < 512 * (l / 512) + 512,
            ;
            assert(512 * (e / 512) <= 512 * (l / 512)) by (nonlinear_arith)
                requires
                    e / 512 <= l / 512,
            ;
        }
    }
    assert forall|j: int| 0 <= j < len implies #[trigger] view_byte(cache, disk, offset + j)
        == disk.subrange(first * 512, first * 512 + count * 512)[offset % 512 + j] by {
        let addr = offset + j;
        crate::storage::lemma_block_span(addr);
        let b = addr / 512;
        assert(!contains_block(cache, b as u32)) by {
            if contains_block(cache, b as u32) {
                let i = choose|i: int|
                    0 <= i < cache.len() && #[trigger] cache[i].block == b as u32;
            }
        }
        assert(view_byte(cache, disk, addr) == disk[addr]);
        assert(first * 512 + (offset % 512 + j) == addr);
        assert(offset % 512 + j < count * 512) by {
            assert(count * 512 >= offset % 512 + len) by {
                assert(512 * count + (offset % 512 + len + 511) % 512 == offset % 512 + len
                    + 511) by {
                    vstd::arithmetic::div_mod::lemma_fundamental_div_mod(
                        offset % 512 + len + 511,
                        512,
                    );
                }
            }
        }
    }
}

/// The mass-storage core running against a simulated disk: a byte store
/// with verified reads, writes, seeks and flushes. Its logical contents
/// are `view_byte` over the cache and the disk; a flush publishes them.
pub struct SimulatedStorage {
    device: MassStorageDevice,
    disk: SimulatedDisk,
}

impl SimulatedStorage {
    /// The core, for specifications.
    pub closed spec fn device(&self) -> MassStorageDevice {
        self.device
    }

    /// The disk, for specifications.
    pub closed spec fn disk(&self) -> SimulatedDisk {
        self.disk
    }

    /// The logical byte at `addr`: the dirty cache entry's byte when one
    /// covers it, else the disk's.
    pub open spec fn byte_at(&self, addr: int) -> u8 {
        view_byte(self.device().cache_entries(), self.disk().contents(), addr)
    }

    /// Total capacity in bytes.
    pub open spec fn spec_capacity(&self) -> int {
        self.device().spec_capacity_bytes()
    }

    /// The session is sound: core and disk agree on the geometry and every
    /// clean cache entry agrees with the disk.
    pub open spec fn wf(&self) -> bool {
        &&& self.device().wf()
        &&& self.disk().wf()
        &&& self.disk().spec_blocks() == self.device().spec_properties().total_number_of_blocks
        &&& coherent(self.device().cache_entries(), self.disk().contents())
    }

    /// Pairs a freshly brought-up core with the disk it talks to.
    pub fn new(device: MassStorageDevice, disk: SimulatedDisk) -> (r: SimulatedStorage)
        requires
            device.wf(),
            disk.wf(),
            device.cache_entries().len() == 0,
            disk.spec_blocks() == device.spec_properties().total_number_of_blocks,
        ensures
            r.wf(),
            r.device() == device,
            r.disk() == disk,
            forall|a: int|
                0 <= a < r.spec_capacity() ==> #[trigger] r.byte_at(a) == disk.contents()[a],
    {
        let r = SimulatedStorage { device, disk };
        proof {
            assert forall|b: u32| #[trigger] contains_block(device.cache_entries(), b)
                implies false by {
                let j = choose|j: int|
                    0 <= j < device.cache_entries().len()
                        && #[trigger] device.cache_entries()[j].block == b;
            }
        }
        r
    }

    /// A copy of the device properties.
    pub fn get_properties(&self) -> (r: MassStorageDeviceProperties)
        ensures
            r.name@ == self.device().spec_properties().name@,
            r.capacity == self.device().spec_properties().capacity,
            r.total_number_of_blocks == self.device().spec_properties().total_number_of_blocks,
            r.block_size == self.device().spec_properties().block_size,
    {
        self.device.get_properties()
    }

    /// The stream cursor.
    pub fn cursor(&self) -> (r: u64)
        ensures
            r == self.device().spec_cursor(),
    {
        self.device.cursor()
    }

    /// A copy of every command the disk has served, oldest first.
    pub fn commands(&self) -> (r: Vec<IssuedCommand>)
        ensures
            r@ == self.disk().log(),
    {
        self.disk.commands()
    }

    /// A copy of the disk's bytes.
    pub fn disk_snapshot(&self) -> (r: Vec<u8>)
        ensures
            r@ == self.disk().contents(),
    {
        self.disk.snapshot()
    }

    /// Moves the cursor; the store itself is untouched.
    pub fn seek(&mut self, pos: SeekFrom) -> (r: Result<u64, MassStorageDeviceError>)
        requires
            old(self).wf(),
        ensures
            final(self).wf(),
            final(self).device().spec_properties() == old(self).device().spec_properties(),
            final(self).disk() == old(self).disk(),
            final(self).device().cache_entries() == old(self).device().cache_entries(),
            ({
                let target: int = match pos {
                    SeekFrom::Start(o) => o as int,
                    SeekFrom::End(o) => old(self).spec_capacity() + o,
                    SeekFrom::Current(o) => old(self).device().spec_cursor() + o,
                };
                if 0 <= target <= u64::MAX {
                    r == Ok::<u64, MassStorageDeviceError>(target as u64)
                        && final(self).device().spec_cursor() == target
                } else {
                    r == Err::<u64, MassStorageDeviceError>(MassStorageDeviceError::OutOfRange)
                        && final(self).device().spec_cursor() == old(self).device().spec_cursor()
                }
            }),
    {
        self.device.seek(pos)
    }

    /// Reads blocks straight from the disk, bypassing the cache, as the
    /// block interface does.
    pub fn read_blocks(&mut self, lba: u32, count: u16) -> (r: Vec<u8>)
        requires
            old(self).wf(),
            lba + count <= old(self).device().spec_properties().total_number_of_blocks,
        ensures
            final(self).wf(),
            final(self).device() == old(self).device(),
            final(self).disk().contents() == old(self).disk().contents(),
            r@ == old(self).disk().contents().subrange(lba as int * 512, (lba + count) * 512),
    {
        self.disk.read_blocks(lba, count)
    }

    /// Writes blocks straight to the disk, bypassing the cache, as the
    /// block interface does. A stale clean cache entry for a written block
    /// would break the session, so the written range must not be cached.
    pub fn write_blocks(&mut self, lba: u32, count: u32, data: &Vec<u8>) -> (r: usize)
        requires
            old(self).wf(),
            lba + count <= old(self).device().spec_properties().total_number_of_blocks,
            data@.len() == count * 512,
            forall|b: u32|
                lba <= b < lba + count ==> !(#[trigger] contains_block(
                    old(self).device().cache_entries(),
                    b,
                )),
        ensures
            final(self).wf(),
            final(self).device() == old(self).device(),
            r == data@.len(),
            final(self).disk().contents().len() == old(self).disk().contents().len(),
            forall|a: int|
                0 <= a < old(self).disk().contents().len() ==> final(self).disk().contents()[a]
                    == if lba * 512 <= a < (lba + count) * 512 {
                    data@[a - lba * 512]
                } else {
                    old(self).disk().contents()[a]
                },
    {
        let r = self.disk.write_blocks(lba, count, data);
        proof {
            let s = self.device().cache_entries();
            assert forall|b: u32| #[trigger] contains_block(s, b) && !dirty_of(s, b)
                implies data_of(s, b) == self.disk().contents().subrange(
                b as int * 512,
                b as int * 512 + 512,
            ) by {
                assert(!(lba <= b < lba + count));
                assert(data_of(s, b) == old(self).disk().contents().subrange(
                    b as int * 512,
                    b as int * 512 + 512,
                ));
                assert(old(self).disk().contents().subrange(b as int * 512, b as int * 512 + 512)
                    =~= self.disk().contents().subrange(b as int * 512, b as int * 512 + 512));
            }
        }
        r
    }

    /// Writes every dirty block back to the disk, one WRITE(10) per block,
    /// and empties the cache. Afterwards the disk holds exactly the bytes
    /// the session presented, and keeps presenting them.
    #[verifier::loop_isolation(false)]
    #[verifier::rlimit(100)]
    pub fn flush(&mut self)
        requires
            old(self).wf(),
        ensures
            final(self).wf(),
            final(self).device().spec_properties() == old(self).device().spec_properties(),
            final(self).device().spec_cursor() == old(self).device().spec_cursor(),
            final(self).device().cache_entries().len() == 0,
            final(self).disk().contents().len() == old(self).disk().contents().len(),
            forall|a: int|
                0 <= a < old(self).spec_capacity() ==> #[trigger] final(self).disk().contents()[a]
                    == old(self).byte_at(a),
            forall|a: int|
                0 <= a < old(self).spec_capacity() ==> #[trigger] final(self).byte_at(a) == old(
                    self,
                ).byte_at(a),
    {
        let ghost olds = self.device().cache_entries();
        let ghost disk0 = self.disk().contents();
        let ws = self.device.flush_take();
        let ghost dev1 = self.device();
        let mut i: usize = 0;
        let n = ws.len();
        while i < n
            invariant
                i <= n == ws@.len(),
                self.device() == dev1,
                self.disk().wf(),
                self.disk().spec_blocks() == old(self).disk().spec_blocks(),
                self.disk().contents().len() == disk0.len(),
                forall|a: int|
                    0 <= a < disk0.len() ==> #[trigger] self.disk().contents()[a] == if wb_covers(
                        ws@,
                        i as int,
                        a / 512,
                    ) {
                        ws@[wb_index(ws@, i as int, a / 512)].data@[a % 512]
                    } else {
                        disk0[a]
                    },
            decreases n - i,
        {
            let w = &ws[i];
            let ghost diskpre = self.disk().contents();
            self.disk.write_blocks(w.lba, 1, &w.data);
            proof {
                assert forall|a: int| 0 <= a < disk0.len() implies #[trigger] self.disk(
                ).contents()[a] == if wb_covers(ws@, i + 1, a / 512) {
                    ws@[wb_index(ws@, i + 1, a / 512)].data@[a % 512]
                } else {
                    disk0[a]
                } by {
                    crate::storage::lemma_block_span(a);
                    let b = a / 512;
                    if w.lba == b {
                        assert(self.disk().contents()[a] == w.data@[a - w.lba * 512]);
                        assert(a - w.lba * 512 == a % 512);
                        assert(wb_covers(ws@, i + 1, b)) by {
                            assert(ws@[i as int].lba == b);
                        }
                        let k = wb_index(ws@, i + 1, b);
                        assert(0 <= k < i + 1 && ws@[k].lba == b);
                        assert(k == i) by {
                            if k < i {
                                assert(ws@[k].lba != ws@[i as int].lba);
                            }
                        }
                    } else {
                        assert(self.disk().contents()[a] == diskpre[a]);
                        assert(wb_covers(ws@, i + 1, b) == wb_covers(ws@, i as int, b)) by {
                            if wb_covers(ws@, i + 1, b) {
                                let k = choose|k: int|
                                    0 <= k < i + 1 && (#[trigger] ws@[k]).lba == b;
                                assert(k < i);
                                assert(wb_covers(ws@, i as int, b));
                            }
                            if wb_covers(ws@, i as int, b) {
                                let k = choose|k: int|
                                    0 <= k < i && (#[trigger] ws@[k]).lba == b;
                                assert(wb_covers(ws@, i + 1, b));
                            }
                        }
                        if wb_covers(ws@, i as int, b) {
                            let k1 = wb_index(ws@, i as int, b);
                            let k2 = wb_index(ws@, i + 1, b);
                            assert(0 <= k1 < i && ws@[k1].lba == b);
                            assert(0 <= k2 < i + 1 && ws@[k2].lba == b);
                            assert(k1 == k2) by {
                                if k1 < k2 {
                                    assert(ws@[k1].lba != ws@[k2].lba);
                                } else if k2 < k1 {
                                    assert(ws@[k2].lba != ws@[k1].lba);
                                }
                            }
                        }
                    }
                }
            }
            i = i + 1;
        }
        proof {
            assert forall|b: u32| #[trigger] contains_block(
                self.device().cache_entries(),
                b,
            ) implies false by {
                let j = choose|j: int|
                    0 <= j < self.device().cache_entries().len()
                        && #[trigger] self.device().cache_entries()[j].block == b;
            }
            assert forall|a: int| 0 <= a < old(self).spec_capacity() implies #[trigger] self.disk(
            ).contents()[a] == old(self).byte_at(a) by {
                crate::storage::lemma_block_span(a);
                let b = a / 512;
                if contains_block(olds, b as u32) && dirty_of(olds, b as u32) {
                    assert(write_back_has(ws@, b as u32, data_of(olds, b as u32)));
                    let k = choose|k: int|
                        0 <= k < ws@.len() && (#[trigger] ws@[k]).lba == b as u32 && ws@[k].data@
                            == data_of(olds, b as u32);
                    assert(wb_covers(ws@, n as int, b));
                    let k2 = wb_index(ws@, n as int, b);
                    assert(0 <= k2 < n && ws@[k2].lba == b as u32);
                    assert(k == k2) by {
                        if k < k2 {
                            assert(ws@[k].lba != ws@[k2].lba);
                        } else if k2 < k {
                            assert(ws@[k2].lba != ws@[k].lba);
                        }
                    }
                } else {
                    assert(!wb_covers(ws@, n as int, b)) by {
                        if wb_covers(ws@, n as int, b) {
                            let k = choose|k: int|
                                0 <= k < n && (#[trigger] ws@[k]).lba == b as u32;
                            assert(contains_block(olds, ws@[k].lba) && dirty_of(olds, ws@[k].lba));
                        }
                    }
                }
            }
        }
    }

    /// Reads up to `want` bytes at the cursor. Uncached blocks are fetched
    /// with one READ(10) per contiguous run of misses and admitted to the
    /// cache; dirty entries evicted by the admissions are written back
    /// before the call returns. The bytes returned are the session's
    /// logical contents at the cursor, the contents themselves do not
    /// change, and a request at or past the capacity returns nothing.
    #[verifier::loop_isolation(false)]
    #[verifier::rlimit(100)]
    pub fn read(&mut self, want: usize) -> (out: Vec<u8>)
        requires
            old(self).wf(),
        ensures
            final(self).wf(),
            final(self).device().spec_properties() == old(self).device().spec_properties(),
            out@.len() == old(self).device().clipped_len(want as int),
            final(self).device().spec_cursor() == old(self).device().spec_cursor() + out@.len(),
            forall|j: int|
                0 <= j < out@.len() ==> #[trigger] out@[j] == old(self).byte_at(
                    old(self).device().spec_cursor() + j,
                ),
            forall|a: int|
                0 <= a < old(self).spec_capacity() ==> #[trigger] final(self).byte_at(a) == old(
                    self,
                ).byte_at(a),
            final(self).disk().contents().len() == old(self).disk().contents().len(),
    {
        let ghost olds = self.device().cache_entries();
        let ghost disk0 = self.disk().contents();
        let ghost dev0 = self.device();
        let ghost cur0 = self.device().spec_cursor() as int;
        let ghost n0 = dev0.clipped_len(want as int);
        proof {
            if n0 > 0 {
                crate::storage::lemma_range_in_device(&dev0, want as int);
            }
        }
        let runs = self.device.read_plan(want);
        let mut responses: Vec<Vec<u8>> = Vec::new();
        let mut i: usize = 0;
        let nruns = runs.len();
        while i < nruns
            invariant
                i <= nruns == runs@.len(),
                self.device() == dev0,
                self.disk().contents() == disk0,
                self.disk().wf(),
                self.disk().spec_blocks() == old(self).disk().spec_blocks(),
                responses@.len() == i,
                forall|k: int|
                    0 <= k < i ==> (#[trigger] responses@[k])@ == disk0.subrange(
                        runs@[k].lba * 512,
                        (runs@[k].lba + runs@[k].count) * 512,
                    ),
            decreases nruns - i,
        {
            let run = runs[i];
            let d = self.disk.read_blocks(run.lba, run.count);
            responses.push(d);
            proof {
                assert(forall|k: int|
                    0 <= k < i ==> (#[trigger] responses@[k])@ == disk0.subrange(
                        runs@[k].lba * 512,
                        (runs@[k].lba + runs@[k].count) * 512,
                    ));
            }
            i = i + 1;
        }
        let ghost resp = views_of(responses@);
        proof {
            assert(crate::storage::responses_match(runs@, resp)) by {
                assert forall|k: int| 0 <= k < runs@.len() implies #[trigger] resp[k].len()
                    == runs@[k].count * 512 by {
                    assert(resp[k] == responses@[k]@);
                }
            }
        }
        let (out, wbs) = self.device.read_apply(want, &runs, &responses);
        let ghost dev2 = self.device();
        let ghost news = self.device().cache_entries();
        let mut i2: usize = 0;
        let n2 = wbs.len();
        while i2 < n2
            invariant
                i2 <= n2 == wbs@.len(),
                self.device() == dev2,
                self.disk().wf(),
                self.disk().spec_blocks() == old(self).disk().spec_blocks(),
                self.disk().contents().len() == disk0.len(),
                forall|a: int|
                    0 <= a < disk0.len() ==> #[trigger] self.disk().contents()[a] == if wb_covers(
                        wbs@,
                        i2 as int,
                        a / 512,
                    ) {
                        wbs@[wb_index(wbs@, i2 as int, a / 512)].data@[a % 512]
                    } else {
                        disk0[a]
                    },
            decreases n2 - i2,
        {
            let w = &wbs[i2];
            proof {
                crate::storage::lemma_contained_block_bounded(
                    olds,
                    old(self).device().spec_properties().total_number_of_blocks,
                    w.lba,
                );
            }
            let ghost diskpre = self.disk().contents();
            self.disk.write_blocks(w.lba, 1, &w.data);
            proof {
                assert forall|a: int| 0 <= a < disk0.len() implies #[trigger] self.disk(
                ).contents()[a] == if wb_covers(wbs@, i2 + 1, a / 512) {
                    wbs@[wb_index(wbs@, i2 + 1, a / 512)].data@[a % 512]
                } else {
                    disk0[a]
                } by {
                    crate::storage::lemma_block_span(a);
                    let b = a / 512;
                    if w.lba == b {
                        assert(self.disk().contents()[a] == w.data@[a - w.lba * 512]);
                        assert(a - w.lba * 512 == a % 512);
                        assert(wb_covers(wbs@, i2 + 1, b)) by {
                            assert(wbs@[i2 as int].lba == b);
                        }
                        let k = wb_index(wbs@, i2 + 1, b);
                        assert(0 <= k < i2 + 1 && wbs@[k].lba == b);
                        assert(k == i2) by {
                            if k < i2 {
                                assert(wbs@[k].lba != wbs@[i2 as int].lba);
                            }
                        }
                    } else {
                        assert(self.disk().contents()[a] == diskpre[a]);
                        assert(wb_covers(wbs@, i2 + 1, b) == wb_covers(wbs@, i2 as int, b)) by {
                            if wb_covers(wbs@, i2 + 1, b) {
                                let k = choose|k: int|
                                    0 <= k < i2 + 1 && (#[trigger] wbs@[k]).lba == b;
                                assert(k < i2);
                                assert(wb_covers(wbs@, i2 as int, b));
                            }
                            if wb_covers(wbs@, i2 as int, b) {
                                let k = choose|k: int|
                                    0 <= k < i2 && (#[trigger] wbs@[k]).lba == b;
                                assert(wb_covers(wbs@, i2 + 1, b));
                            }
                        }
                        if wb_covers(wbs@, i2 as int, b) {
                            let k1 = wb_index(wbs@, i2 as int, b);
                            let k2 = wb_index(wbs@, i2 + 1, b);
                            assert(0 <= k1 < i2 && wbs@[k1].lba == b);
                            assert(0 <= k2 < i2 + 1 && wbs@[k2].lba == b);
                            assert(k1 == k2) by {
                                if k1 < k2 {
                                    assert(wbs@[k1].lba != wbs@[k2].lba);
                                } else if k2 < k1 {
                                    assert(wbs@[k2].lba != wbs@[k1].lba);
                                }
                            }
                        }
                    }
                }
            }
            i2 = i2 + 1;
        }
        proof {
            let sb = dev0.start_block();
            let eb = dev0.end_block(n0);
            let diskn = self.disk().contents();
            // the returned bytes are the logical contents at the cursor
            assert forall|j: int| 0 <= j < out@.len() implies #[trigger] out@[j] == view_byte(
                olds,
                disk0,
                cur0 + j,
            ) by {
                let addr = cur0 + j;
                crate::storage::lemma_block_span(addr);
                let b = addr / 512;
                assert(sb * 512 <= cur0 <= addr <= cur0 + n0 - 1 < (eb + 1) * 512);
                assert(sb <= b <= eb);
                if contains_block(olds, b as u32) {
                    if !dirty_of(olds, b as u32) {
                        assert(data_of(olds, b as u32) == disk0.subrange(
                            b * 512,
                            b * 512 + 512,
                        ));
                        assert(data_of(olds, b as u32)[addr % 512] == disk0[addr]);
                    }
                } else {
                    assert(crate::storage::run_covers(runs@, b));
                    let ri = crate::storage::run_index_of(runs@, b);
                    assert(0 <= ri < runs@.len() && runs@[ri].lba <= b < runs@[ri].lba
                        + runs@[ri].count);
                    assert(resp[ri] == responses@[ri]@);
                    let fb = crate::storage::fetched_block(olds, runs@, resp, b);
                    assert(fb[addr % 512] == resp[ri][(b - runs@[ri].lba) * 512 + addr % 512]);
                    assert(resp[ri][(b - runs@[ri].lba) * 512 + addr % 512] == disk0[runs@[ri].lba
                        * 512 + (b - runs@[ri].lba) * 512 + addr % 512]);
                    assert(runs@[ri].lba * 512 + (b - runs@[ri].lba) * 512 + addr % 512 == addr);
                }
            }
            // the logical contents are unchanged
            assert forall|a: int| 0 <= a < old(self).spec_capacity() implies #[trigger] view_byte(
                news,
                diskn,
                a,
            ) == view_byte(olds, disk0, a) by {
                crate::storage::lemma_block_span(a);
                let b = a / 512;
                if contains_block(news, b as u32) && dirty_of(news, b as u32) {
                    assert(crate::storage::entry_preserved(olds, news, b as u32));
                } else {
                    if wb_covers(wbs@, n2 as int, b) {
                        let k = wb_index(wbs@, n2 as int, b);
                        assert(0 <= k < n2 && wbs@[k].lba == b);
                        assert(diskn[a] == wbs@[k].data@[a % 512]);
                        assert(wbs@[k].data@ == data_of(olds, b as u32));
                        assert(dirty_of(olds, b as u32) && contains_block(olds, b as u32));
                    } else {
                        assert(diskn[a] == disk0[a]);
                        if contains_block(olds, b as u32) && dirty_of(olds, b as u32) {
                            assert(contains_block(news, b as u32) || write_back_has(
                                wbs@,
                                b as u32,
                                data_of(olds, b as u32),
                            ));
                            if write_back_has(wbs@, b as u32, data_of(olds, b as u32)) {
                                let k = choose|k: int|
                                    0 <= k < wbs@.len() && (#[trigger] wbs@[k]).lba == b as u32
                                        && wbs@[k].data@ == data_of(olds, b as u32);
                                assert(wb_covers(wbs@, n2 as int, b));
                            } else {
                                assert(contains_block(news, b as u32));
                                assert(crate::storage::entry_preserved(olds, news, b as u32));
                                assert(dirty_of(news, b as u32));
                            }
                            assert(false);
                        }
                    }
                }
            }
            // every clean entry still agrees with the disk
            assert forall|b: u32| #[trigger] contains_block(news, b) && !dirty_of(news, b)
                implies data_of(news, b) == diskn.subrange(
                b as int * 512,
                b as int * 512 + 512,
            ) by {
                assert(!wb_covers(wbs@, n2 as int, b as int)) by {
                    if wb_covers(wbs@, n2 as int, b as int) {
                        let k = choose|k: int|
                            0 <= k < n2 && (#[trigger] wbs@[k]).lba == b as int;
                        assert(!contains_block(news, wbs@[k].lba));
                    }
                }
                let s1 = diskn.subrange(b as int * 512, b as int * 512 + 512);
                let s2 = disk0.subrange(b as int * 512, b as int * 512 + 512);
                assert forall|o: int| 0 <= o < 512 implies #[trigger] s1[o] == s2[o] by {
                    crate::storage::lemma_addr_block(b as int * 512 + o, b as int);
                    assert(diskn[b as int * 512 + o] == disk0[b as int * 512 + o]);
                }
                assert(s1 =~= s2);
                if crate::storage::entry_preserved(olds, news, b) {
                    assert(data_of(olds, b) == disk0.subrange(b as int * 512, b as int * 512 + 512));
                } else {
                    assert(n0 > 0) by {
                        if n0 == 0 {
                            assert(news == olds);
                            assert(contains_block(olds, b));
                        }
                    }
                    assert(crate::storage::read_admitted(olds, news, runs@, resp, sb, eb, b));
                    let fb = crate::storage::fetched_block(olds, runs@, resp, b as int);
                    assert(crate::storage::run_covers(runs@, b as int)) by {
                        assert(sb <= b as int <= eb);
                    }
                    let ri = crate::storage::run_index_of(runs@, b as int);
                    assert(0 <= ri < runs@.len() && runs@[ri].lba <= b as int && (b as int)
                        < runs@[ri].lba + runs@[ri].count);
                    assert(resp[ri] == responses@[ri]@);
                    assert forall|o: int| 0 <= o < 512 implies fb[o] == disk0[b as int * 512
                        + o] by {
                        assert(fb[o] == resp[ri][(b - runs@[ri].lba) * 512 + o]);
                        assert(resp[ri][(b - runs@[ri].lba) * 512 + o] == disk0[runs@[ri].lba * 512
                            + (b - runs@[ri].lba) * 512 + o]);
                    }
                    assert(fb =~= disk0.subrange(b as int * 512, b as int * 512 + 512));
                }
            }
        }
        out
    }

    /// Issues one 1-block WRITE(10) per entry of `ws`, in order.
    #[verifier::loop_isolation(false)]
    #[verifier::rlimit(100)]
    fn perform_write_backs(&mut self, ws: &Vec<BlockWrite>)
        requires
            old(self).disk().wf(),
            forall|k: int|
                0 <= k < ws@.len() ==> (#[trigger] ws@[k]).lba < old(self).disk().spec_blocks()
                    && ws@[k].data@.len() == 512,
            forall|k1: int, k2: int|
                0 <= k1 < k2 < ws@.len() ==> (#[trigger] ws@[k1]).lba != (#[trigger] ws@[k2]).lba,
        ensures
            final(self).device() == old(self).device(),
            final(self).disk().wf(),
            final(self).disk().spec_blocks() == old(self).disk().spec_blocks(),
            final(self).disk().contents().len() == old(self).disk().contents().len(),
            forall|a: int|
                0 <= a < old(self).disk().contents().len()
                    ==> #[trigger] final(self).disk().contents()[a]
                    == if wb_covers(ws@, ws@.len() as int, a / 512) {
                    ws@[wb_index(ws@, ws@.len() as int, a / 512)].data@[a % 512]
                } else {
                    old(self).disk().contents()[a]
                },
    {
        let ghost disk0 = self.disk().contents();
        let ghost dev0 = self.device();
        let mut i: usize = 0;
        let n = ws.len();
        while i < n
            invariant
                i <= n == ws@.len(),
                self.device() == dev0,
                self.disk().wf(),
                self.disk().spec_blocks() == old(self).disk().spec_blocks(),
                self.disk().contents().len() == disk0.len(),
                forall|a: int|
                    0 <= a < disk0.len() ==> #[trigger] self.disk().contents()[a] == if wb_covers(
                        ws@,
                        i as int,
                        a / 512,
                    ) {
                        ws@[wb_index(ws@, i as int, a / 512)].data@[a % 512]
                    } else {
                        disk0[a]
                    },
            decreases n - i,
        {
            let w = &ws[i];
            let ghost diskpre = self.disk().contents();
            self.disk.write_blocks(w.lba, 1, &w.data);
            proof {
                assert forall|a: int| 0 <= a < disk0.len() implies #[trigger] self.disk(
                ).contents()[a] == if wb_covers(ws@, i + 1, a / 512) {
                    ws@[wb_index(ws@, i + 1, a / 512)].data@[a % 512]
                } else {
                    disk0[a]
                } by {
                    crate::storage::lemma_block_span(a);
                    let b = a / 512;
                    if w.lba == b {
                        assert(self.disk().contents()[a] == w.data@[a - w.lba * 512]);
                        assert(a - w.lba * 512 == a % 512);
                        assert(wb_covers(ws@, i + 1, b)) by {
                            assert(ws@[i as int].lba == b);
                        }
                        let k = wb_index(ws@, i + 1, b);
                        assert(0 <= k < i + 1 && ws@[k].lba == b);
                        assert(k == i) by {
                            if k < i {
                                assert(ws@[k].lba != ws@[i as int].lba);
                            }
                        }
                    } else {
                        assert(self.disk().contents()[a] == diskpre[a]);
                        assert(wb_covers(ws@, i + 1, b) == wb_covers(ws@, i as int, b)) by {
                            if wb_covers(ws@, i + 1, b) {
                                let k = choose|k: int|
                                    0 <= k < i + 1 && (#[trigger] ws@[k]).lba == b;
                                assert(k < i);
                                assert(wb_covers(ws@, i as int, b));
                            }
                            if wb_covers(ws@, i as int, b) {
                                let k = choose|k: int|
                                    0 <= k < i && (#[trigger] ws@[k]).lba == b;
                                assert(wb_covers(ws@, i + 1, b));
                            }
                        }
                        if wb_covers(ws@, i as int, b) {
                            let k1 = wb_index(ws@, i as int, b);
                            let k2 = wb_index(ws@, i + 1, b);
                            assert(0 <= k1 < i && ws@[k1].lba == b);
                            assert(0 <= k2 < i + 1 && ws@[k2].lba == b);
                            assert(k1 == k2) by {
                                if k1 < k2 {
                                    assert(ws@[k1].lba != ws@[k2].lba);
                                } else if k2 < k1 {
                                    assert(ws@[k2].lba != ws@[k1].lba);
                                }
                            }
                        }
                    }
                }
            }
            i = i + 1;
        }
    }

    /// Writes `buf` at the cursor. Boundary blocks are read-modify-written
    /// through the cache; a write inside one block is deferred, dirty, to
    /// the cache, while a write across blocks goes to the disk as one
    /// WRITE(10) and its blocks are admitted clean. Dirty entries evicted
    /// along the way are written back before the call returns. Afterwards
    /// the session's logical contents carry the payload at the cursor and
    /// are untouched elsewhere; a write at or past the capacity moves
    /// nothing.
    #[verifier::loop_isolation(false)]
    #[verifier::rlimit(100)]
    pub fn write(&mut self, buf: &Vec<u8>) -> (written: usize)
        requires
            old(self).wf(),
            buf@.len() + 1024 <= usize::MAX,
        ensures
            final(self).wf(),
            final(self).device().spec_properties() == old(self).device().spec_properties(),
            written == old(self).device().clipped_len(buf@.len() as int),
            final(self).device().spec_cursor() == old(self).device().spec_cursor() + written,
            forall|a: int|
                0 <= a < old(self).spec_capacity() ==> #[trigger] final(self).byte_at(a) == if old(
                    self,
                ).device().spec_cursor() <= a < old(self).device().spec_cursor() + written {
                    buf@[a - old(self).device().spec_cursor()]
                } else {
                    old(self).byte_at(a)
                },
            final(self).disk().contents().len() == old(self).disk().contents().len(),
    {
        let ghost olds = self.device().cache_entries();
        let ghost disk0 = self.disk().contents();
        let ghost dev0 = self.device();
        let ghost cur0 = self.device().spec_cursor() as int;
        let ghost n0 = dev0.clipped_len(buf@.len() as int);
        proof {
            if n0 > 0 {
                crate::storage::lemma_range_in_device(&dev0, buf@.len() as int);
            }
        }
        let ghost sb = dev0.start_block();
        let ghost eb = dev0.end_block(n0);
        let runs = self.device.write_plan(buf.len());
        let mut responses: Vec<Vec<u8>> = Vec::new();
        let mut i: usize = 0;
        let nruns = runs.len();
        proof {
            assert forall|k: int| 0 <= k < runs@.len() implies (#[trigger] runs@[k]).count == 1
                && (runs@[k].lba == sb || runs@[k].lba == eb) && runs@[k].lba
                < dev0.total_blocks() by {}
        }
        while i < nruns
            invariant
                i <= nruns == runs@.len(),
                self.device() == dev0,
                self.disk().contents() == disk0,
                self.disk().wf(),
                self.disk().spec_blocks() == old(self).disk().spec_blocks(),
                responses@.len() == i,
                forall|k: int|
                    0 <= k < i ==> (#[trigger] responses@[k])@ == disk0.subrange(
                        runs@[k].lba * 512,
                        (runs@[k].lba + runs@[k].count) * 512,
                    ),
            decreases nruns - i,
        {
            let run = runs[i];
            let d = self.disk.read_blocks(run.lba, run.count);
            responses.push(d);
            proof {
                assert(forall|k: int|
                    0 <= k < i ==> (#[trigger] responses@[k])@ == disk0.subrange(
                        runs@[k].lba * 512,
                        (runs@[k].lba + runs@[k].count) * 512,
                    ));
            }
            i = i + 1;
        }
        let ghost resp = views_of(responses@);
        proof {
            assert(crate::storage::responses_match(runs@, resp)) by {
                assert forall|k: int| 0 <= k < runs@.len() implies #[trigger] resp[k].len()
                    == runs@[k].count * 512 by {
                    assert(resp[k] == responses@[k]@);
                }
            }
        }
        let (written, main, evs) = self.device.write_apply(buf, &runs, &responses);
        let ghost news = self.device().cache_entries();
        let ghost dev2 = self.device();
        match &main {
            Some(m) => {
                let cnt: u32 = (m.data.len() / 512) as u32;
                proof {
                    assert(m.data@.len() == (eb - sb + 1) * 512);
                    assert(cnt == eb - sb + 1);
                    assert(m.lba == sb);
                }
                self.disk.write_blocks(m.lba, cnt, &m.data);
            },
            None => {},
        }
        let ghost disk1 = self.disk().contents();
        proof {
            assert forall|k: int| 0 <= k < evs@.len() implies (#[trigger] evs@[k]).lba < self.disk(
            ).spec_blocks() && evs@[k].data@.len() == 512 by {
                crate::storage::lemma_contained_block_bounded(
                    olds,
                    old(self).device().spec_properties().total_number_of_blocks,
                    evs@[k].lba,
                );
            }
        }
        self.perform_write_backs(&evs);
        let ghost diskn = self.disk().contents();
        let ghost nevs = evs@.len() as int;
        proof {
            let wspec = crate::storage::working_bytes(olds, runs@, resp, cur0, n0, buf@, sb, eb);
            // the logical contents now carry the payload, and nothing else moved
            assert forall|a: int| 0 <= a < old(self).spec_capacity() implies #[trigger] view_byte(
                news,
                diskn,
                a,
            ) == if cur0 <= a < cur0 + written {
                buf@[a - cur0]
            } else {
                view_byte(olds, disk0, a)
            } by {
                crate::storage::lemma_block_span(a);
                let b = a / 512;
                if n0 == 0 {
                    assert(news == olds && diskn == disk0);
                } else if sb <= b <= eb {
                    assert(!wb_covers(evs@, nevs, b)) by {
                        if wb_covers(evs@, nevs, b) {
                            let k = choose|k: int|
                                0 <= k < nevs && (#[trigger] evs@[k]).lba == b;
                            assert(evs@[k].lba < sb || evs@[k].lba > eb);
                        }
                    }
                    let wb = crate::storage::written_block(olds, runs@, resp, cur0, n0, buf@, b);
                    assert(wb[a % 512] == if cur0 <= a < cur0 + n0 {
                        buf@[a - cur0]
                    } else {
                        crate::storage::fetched_block(olds, runs@, resp, b)[a % 512]
                    }) by {
                        assert(b * 512 + a % 512 == a);
                    }
                    if !(cur0 <= a < cur0 + n0) {
                        // a boundary byte outside the payload keeps its old value
                        assert(crate::storage::fetched_block(olds, runs@, resp, b)[a % 512]
                            == view_byte(olds, disk0, a)) by {
                            if contains_block(olds, b as u32) {
                                if !dirty_of(olds, b as u32) {
                                    assert(data_of(olds, b as u32) == disk0.subrange(
                                        b * 512,
                                        b * 512 + 512,
                                    ));
                                    assert(data_of(olds, b as u32)[a % 512] == disk0[a]);
                                }
                            } else {
                                assert(b == sb || b == eb) by {
                                    assert(cur0 < sb * 512 + 512);
                                    assert(eb * 512 <= cur0 + n0 - 1);
                                    if sb < b < eb {
                                        assert(b * 512 <= a < b * 512 + 512);
                                        assert(cur0 <= a < cur0 + n0);
                                    }
                                }
                                assert(crate::storage::run_covers(runs@, b)) by {
                                    if b == sb {
                                        assert(runs@[0].lba == sb && runs@[0].count == 1);
                                    } else {
                                        let ghost li = runs@.len() - 1;
                                        assert(runs@[li].lba == eb && runs@[li].count == 1);
                                    }
                                }
                                let ri = crate::storage::run_index_of(runs@, b);
                                assert(0 <= ri < runs@.len() && runs@[ri].lba <= b && b
                                    < runs@[ri].lba + runs@[ri].count);
                                assert(runs@[ri].lba == b);
                                assert(resp[ri] == responses@[ri]@);
                                let fb = crate::storage::fetched_block(olds, runs@, resp, b);
                                assert(fb[a % 512] == resp[ri][(b - runs@[ri].lba) * 512 + a
                                    % 512]);
                                assert(resp[ri][a % 512] == disk0[runs@[ri].lba * 512 + a % 512]);
                            }
                        }
                    }
                    if main is Some {
                        // the device now holds the working buffer over the range
                        assert(diskn[a] == disk1[a]);
                        assert(disk1[a] == wspec[a - sb * 512]);
                        assert(wspec[a - sb * 512] == wb[a % 512]) by {
                            crate::storage::lemma_addr_block(a - sb * 512, b - sb);
                        }
                        if contains_block(news, b as u32) {
                            assert(crate::storage::write_updated(
                                olds,
                                news,
                                runs@,
                                resp,
                                cur0,
                                n0,
                                buf@,
                                sb,
                                eb,
                                b as u32,
                            ));
                            assert(!dirty_of(news, b as u32));
                        }
                        assert(view_byte(news, diskn, a) == diskn[a]);
                    } else {
                        // a single-block write stays in the cache, dirty
                        assert(sb == eb && b == sb);
                        assert(contains_block(news, b as u32));
                        assert(crate::storage::write_updated(
                            olds,
                            news,
                            runs@,
                            resp,
                            cur0,
                            n0,
                            buf@,
                            sb,
                            eb,
                            b as u32,
                        ));
                        assert(dirty_of(news, b as u32));
                        assert(view_byte(news, diskn, a) == data_of(news, b as u32)[a % 512]);
                        assert(data_of(news, b as u32) == wb);
                    }
                } else {
                    // outside the written range nothing observable moved
                    assert(diskn[a] == if wb_covers(evs@, nevs, b) {
                        evs@[wb_index(evs@, nevs, b)].data@[a % 512]
                    } else {
                        disk1[a]
                    });
                    assert(disk1[a] == disk0[a]) by {
                        if main is Some {
                            assert(!(sb * 512 <= a < (eb + 1) * 512));
                        }
                    }
                    if contains_block(news, b as u32) && dirty_of(news, b as u32) {
                        assert(crate::storage::entry_preserved(olds, news, b as u32)) by {
                            if crate::storage::write_updated(
                                olds,
                                news,
                                runs@,
                                resp,
                                cur0,
                                n0,
                                buf@,
                                sb,
                                eb,
                                b as u32,
                            ) {
                                assert(sb <= b <= eb);
                            }
                        }
                    } else {
                        if wb_covers(evs@, nevs, b) {
                            let k = wb_index(evs@, nevs, b);
                            assert(0 <= k < nevs && evs@[k].lba == b);
                            assert(evs@[k].data@ == data_of(olds, b as u32));
                            assert(contains_block(olds, b as u32) && dirty_of(olds, b as u32));
                        } else {
                            if contains_block(olds, b as u32) && dirty_of(olds, b as u32) {
                                assert(contains_block(news, b as u32) || write_back_has(
                                    evs@,
                                    b as u32,
                                    data_of(olds, b as u32),
                                ));
                                if write_back_has(evs@, b as u32, data_of(olds, b as u32)) {
                                    let k = choose|k: int|
                                        0 <= k < evs@.len() && (#[trigger] evs@[k]).lba == b as u32
                                            && evs@[k].data@ == data_of(olds, b as u32);
                                    assert(wb_covers(evs@, nevs, b));
                                } else {
                                    assert(contains_block(news, b as u32));
                                    assert(crate::storage::entry_preserved(olds, news, b as u32))
                                        by {
                                        if crate::storage::write_updated(
                                            olds,
                                            news,
                                            runs@,
                                            resp,
                                            cur0,
                                            n0,
                                            buf@,
                                            sb,
                                            eb,
                                            b as u32,
                                        ) {
                                            assert(sb <= b <= eb);
                                        }
                                    }
                                    assert(dirty_of(news, b as u32));
                                }
                                assert(false);
                            }
                        }
                    }
                }
            }
            // every clean entry still agrees with the disk
            assert forall|b: u32| #[trigger] contains_block(news, b) && !dirty_of(news, b)
                implies data_of(news, b) == diskn.subrange(
                b as int * 512,
                b as int * 512 + 512,
            ) by {
                assert(!wb_covers(evs@, nevs, b as int)) by {
                    if wb_covers(evs@, nevs, b as int) {
                        let k = choose|k: int|
                            0 <= k < nevs && (#[trigger] evs@[k]).lba == b as int;
                        assert(!contains_block(news, evs@[k].lba));
                    }
                }
                if n0 == 0 {
                    assert(news == olds && diskn == disk0);
                    let s1 = diskn.subrange(b as int * 512, b as int * 512 + 512);
                    let s2 = disk0.subrange(b as int * 512, b as int * 512 + 512);
                    assert(s1 =~= s2);
                } else if crate::storage::write_updated(
                    olds,
                    news,
                    runs@,
                    resp,
                    cur0,
                    n0,
                    buf@,
                    sb,
                    eb,
                    b as u32,
                ) {
                    assert(sb != eb) by {
                        if sb == eb {
                            assert(dirty_of(news, b));
                        }
                    }
                    assert(main is Some);
                    let s1 = diskn.subrange(b as int * 512, b as int * 512 + 512);
                    let wb = crate::storage::written_block(olds, runs@, resp, cur0, n0, buf@, b as int);
                    assert forall|o: int| 0 <= o < 512 implies #[trigger] s1[o] == wb[o] by {
                        crate::storage::lemma_addr_block(b as int * 512 + o, b as int);
                        assert(diskn[b as int * 512 + o] == disk1[b as int * 512 + o]);
                        assert(disk1[b as int * 512 + o] == wspec[b as int * 512 + o - sb * 512]);
                        crate::storage::lemma_addr_block(b as int * 512 + o - sb * 512, b - sb);
                        assert(wspec[b as int * 512 + o - sb * 512] == wb[o]);
                    }
                    assert(s1 =~= wb);
                } else {
                    assert((b < sb || b > eb) && crate::storage::entry_preserved(olds, news, b));
                    assert(!dirty_of(olds, b));
                    let s1 = diskn.subrange(b as int * 512, b as int * 512 + 512);
                    let s2 = disk0.subrange(b as int * 512, b as int * 512 + 512);
                    assert forall|o: int| 0 <= o < 512 implies #[trigger] s1[o] == s2[o] by {
                        crate::storage::lemma_addr_block(b as int * 512 + o, b as int);
                        assert(diskn[b as int * 512 + o] == disk1[b as int * 512 + o]);
                        if main is Some {
                            assert(!(sb * 512 <= b as int * 512 + o < (eb + 1) * 512));
                        }
                    }
                    assert(s1 =~= s2);
                }
            }
        }
        written
    }
}

} // verus!
