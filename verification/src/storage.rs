//! The mass-storage core: device properties from bring-up, the write-back
//! block cache, and the mapping of byte-addressed reads and writes onto
//! block commands.
//!
//! The core holds no USB handle. Each operation that needs the device is
//! split in two: a plan says which READ(10) commands to issue, and an apply
//! step takes the fetched bytes, moves data, updates the cache, and returns
//! the WRITE(10) commands the caller must issue, in order. Whoever owns the
//! transport — a USB session or a simulated disk — drives the commands.

use vstd::prelude::*;

use crate::cache::{
    blocks_distinct, contains_block, data_of, dirty_of, entries_wf, CacheEntry, LruCache,
};
use crate::scsi::{InquiryResponse, ReadCapacityResponse};

verus! {

/// Errors of the mass-storage layer.
#[derive(Clone, Copy, Debug, PartialEq, Eq, Structural)]
pub enum MassStorageDeviceError {
    /// The device is not a usable direct-access block device.
    IncompatibleDevice,
    /// TEST UNIT READY did not pass during bring-up.
    NotReady,
    /// A seek would land before byte 0 or beyond what an offset can hold.
    OutOfRange,
}

/// What bring-up learned about the device.
#[derive(Debug, Clone)]
pub struct MassStorageDeviceProperties {
    /// Vendor and product, space-separated.
    pub name: String,
    /// Total capacity in bytes.
    pub capacity: u64,
    /// How many logical blocks the device has.
    pub total_number_of_blocks: u32,
    /// The size of one logical block in bytes.
    pub block_size: u32,
}

/// A READ(10) the caller must issue: `count` blocks starting at `lba`.
#[derive(Clone, Copy, Debug, PartialEq, Eq, Structural)]
pub struct ReadRun {
    pub lba: u32,
    pub count: u16,
}

/// A WRITE(10) the caller must issue: the blocks starting at `lba`, with
/// the bytes to send; their number is `data.len() / 512` blocks.
pub struct BlockWrite {
    pub lba: u32,
    pub data: Vec<u8>,
}

/// Whether some run of `rs` covers block `b`.
pub open spec fn run_covers(rs: Seq<ReadRun>, b: int) -> bool {
    exists|i: int|
        0 <= i < rs.len() && #[trigger] rs[i].lba <= b < rs[i].lba + rs[i].count
}

/// The position of the run covering block `b`.
pub open spec fn run_index_of(rs: Seq<ReadRun>, b: int) -> int {
    choose|i: int| 0 <= i < rs.len() && #[trigger] rs[i].lba <= b < rs[i].lba + rs[i].count
}

/// The blocks already fetched when the apply loop stands at run `ri`,
/// offset `k`: every block of an earlier run, and the first `k` blocks of
/// run `ri`.
pub open spec fn processed_block(rs: Seq<ReadRun>, ri: int, k: int, b: int) -> bool {
    (exists|i: int| 0 <= i < ri && #[trigger] rs[i].lba <= b < rs[i].lba + rs[i].count) || (0 <= ri
        < rs.len() && rs[ri].lba <= b < rs[ri].lba + k)
}

/// Runs are in ascending order and do not overlap.
pub open spec fn runs_disjoint(rs: Seq<ReadRun>) -> bool {
    forall|i: int, j: int|
        0 <= i < j < rs.len() ==> #[trigger] rs[i].lba + rs[i].count <= #[trigger] rs[j].lba
}

/// Every run lies inside the blocks `sb..=eb` and moves at least one block.
pub open spec fn runs_in_range(rs: Seq<ReadRun>, sb: int, eb: int) -> bool {
    forall|i: int|
        0 <= i < rs.len() ==> sb <= #[trigger] rs[i].lba && rs[i].lba + rs[i].count <= eb + 1
            && rs[i].count >= 1
}

/// The dirty entries of a cache, in the cache's own order.
pub open spec fn dirty_entries(s: Seq<CacheEntry>) -> Seq<CacheEntry>
    decreases s.len(),
{
    if s.len() == 0 {
        Seq::empty()
    } else if s.last().dirty {
        dirty_entries(s.drop_last()).push(s.last())
    } else {
        dirty_entries(s.drop_last())
    }
}

/// Every cached block number is below `total`.
pub open spec fn blocks_bounded(s: Seq<CacheEntry>, total: u32) -> bool {
    forall|i: int| 0 <= i < s.len() ==> (#[trigger] s[i]).block < total
}

/// Whether the write list has an entry for block `b` carrying bytes `d`.
pub open spec fn write_back_has(ws: Seq<BlockWrite>, b: u32, d: Seq<u8>) -> bool {
    exists|k: int| 0 <= k < ws.len() && #[trigger] ws[k].lba == b && ws[k].data@ == d
}

/// The 512 bytes of block `b` under a fetch plan: the cached bytes when the
/// block is cached, else the bytes the run covering it fetched.
pub open spec fn fetched_block(
    s: Seq<CacheEntry>,
    rs: Seq<ReadRun>,
    resp: Seq<Seq<u8>>,
    b: int,
) -> Seq<u8> {
    if contains_block(s, b as u32) {
        data_of(s, b as u32)
    } else {
        let i = run_index_of(rs, b);
        resp[i].subrange((b - rs[i].lba) * 512, (b - rs[i].lba) * 512 + 512)
    }
}

/// The byte at device address `addr` under a fetch plan.
pub open spec fn fetched_byte(
    s: Seq<CacheEntry>,
    rs: Seq<ReadRun>,
    resp: Seq<Seq<u8>>,
    addr: int,
) -> u8 {
    fetched_block(s, rs, resp, addr / 512)[addr % 512]
}

/// Each response holds exactly the bytes of its run's blocks.
pub open spec fn responses_match(rs: Seq<ReadRun>, resp: Seq<Seq<u8>>) -> bool {
    &&& resp.len() == rs.len()
    &&& forall|i: int| 0 <= i < rs.len() ==> #[trigger] resp[i].len() == rs[i].count * 512
}

/// The bytes of block `b` after a byte-write of `buf` at address `cur`:
/// the written range comes from the payload, the rest from the block's
/// prior bytes under the fetch plan.
pub open spec fn written_block(
    s: Seq<CacheEntry>,
    rs: Seq<ReadRun>,
    resp: Seq<Seq<u8>>,
    cur: int,
    n: int,
    buf: Seq<u8>,
    b: int,
) -> Seq<u8> {
    Seq::new(
        512,
        |o: int|
            {
                let addr = b * 512 + o;
                if cur <= addr < cur + n {
                    buf[addr - cur]
                } else {
                    fetched_block(s, rs, resp, b)[o]
                }
            },
    )
}

/// The working buffer a multi-block byte-write sends in one WRITE(10):
/// the written blocks `sb..=eb`, back to back.
pub open spec fn working_bytes(
    s: Seq<CacheEntry>,
    rs: Seq<ReadRun>,
    resp: Seq<Seq<u8>>,
    cur: int,
    n: int,
    buf: Seq<u8>,
    sb: int,
    eb: int,
) -> Seq<u8> {
    Seq::new(
        ((eb - sb + 1) * 512) as nat,
        |o: int| written_block(s, rs, resp, cur, n, buf, sb + o / 512)[o % 512],
    )
}

/// The fetch plan of a byte-write over blocks `sb..=eb`: the first and the
/// last block are read-modify-written, so each is fetched unless cached;
/// interior blocks are fully overwritten and never fetched.
pub open spec fn write_plan_spec(s: Seq<CacheEntry>, sb: int, eb: int) -> Seq<ReadRun> {
    let first: Seq<ReadRun> = if contains_block(s, sb as u32) {
        Seq::empty()
    } else {
        seq![ReadRun { lba: sb as u32, count: 1u16 }]
    };
    if sb == eb {
        first
    } else {
        let last: Seq<ReadRun> = if contains_block(s, eb as u32) {
            Seq::empty()
        } else {
            seq![ReadRun { lba: eb as u32, count: 1u16 }]
        };
        first + last
    }
}

/// Appending a run extends coverage by exactly that run's blocks.
proof fn lemma_push_run(rs: Seq<ReadRun>, r: ReadRun, t: Seq<ReadRun>)
    requires
        t == rs.push(r),
    ensures
        forall|b: int| #[trigger] run_covers(rs, b) ==> run_covers(t, b),
        forall|b: int| r.lba <= b < r.lba + r.count ==> #[trigger] run_covers(t, b),
        forall|b: int|
            #[trigger] run_covers(t, b) ==> run_covers(rs, b) || (r.lba <= b < r.lba + r.count),
{
    let n = rs.len() as int;
    assert(forall|k: int| 0 <= k < n ==> t[k] == rs[k]);
    assert(t[n] == r);
    assert forall|b: int| #[trigger] run_covers(rs, b) implies run_covers(t, b) by {
        let i = choose|i: int| 0 <= i < rs.len() && #[trigger] rs[i].lba <= b < rs[i].lba + rs[i].count;
        assert(t[i].lba <= b < t[i].lba + t[i].count);
    }
    assert forall|b: int| r.lba <= b < r.lba + r.count implies #[trigger] run_covers(t, b) by {
        assert(t[n].lba <= b < t[n].lba + t[n].count);
    }
    assert forall|b: int| #[trigger] run_covers(t, b) implies run_covers(rs, b) || (r.lba <= b
        < r.lba + r.count) by {
        let i = choose|i: int| 0 <= i < t.len() && #[trigger] t[i].lba <= b < t[i].lba + t[i].count;
        if i < n {
            assert(rs[i].lba <= b < rs[i].lba + rs[i].count);
        }
    }
}

/// The views of a sequence of byte vectors.
pub open spec fn views_of(rs: Seq<Vec<u8>>) -> Seq<Seq<u8>> {
    rs.map_values(|v: Vec<u8>| v@)
}

/// Block `b` of the old cache survived into the new cache unchanged.
pub open spec fn entry_preserved(
    old_s: Seq<CacheEntry>,
    new_s: Seq<CacheEntry>,
    b: u32,
) -> bool {
    &&& contains_block(old_s, b)
    &&& data_of(new_s, b) == data_of(old_s, b)
    &&& dirty_of(new_s, b) == dirty_of(old_s, b)
}

/// Block `b` of the new cache was admitted clean by a byte-read: it was not
/// cached, lies in the request's range, and holds the fetched bytes.
pub open spec fn read_admitted(
    old_s: Seq<CacheEntry>,
    new_s: Seq<CacheEntry>,
    rs: Seq<ReadRun>,
    resp: Seq<Seq<u8>>,
    sb: int,
    eb: int,
    b: u32,
) -> bool {
    &&& !contains_block(old_s, b)
    &&& sb <= b <= eb
    &&& !dirty_of(new_s, b)
    &&& data_of(new_s, b) == fetched_block(old_s, rs, resp, b as int)
}

/// A cache whose blocks all come from a bounded cache, or equal a block
/// below the bound, is bounded too.
proof fn lemma_bounded_put(
    pre: Seq<CacheEntry>,
    news: Seq<CacheEntry>,
    total: u32,
    b2: u32,
)
    requires
        blocks_bounded(pre, total),
        b2 < total,
        forall|b: u32| #[trigger] contains_block(news, b) ==> b == b2 || contains_block(pre, b),
    ensures
        blocks_bounded(news, total),
{
    assert forall|i: int| 0 <= i < news.len() implies (#[trigger] news[i]).block < total by {
        assert(contains_block(news, news[i].block));
        if news[i].block != b2 {
            let j = choose|j: int|
                0 <= j < pre.len() && #[trigger] pre[j].block == news[i].block;
        }
    }
}

/// Block `b` of the new cache holds the bytes a byte-write gave it:
/// it lies in the written range and carries the written block's bytes,
/// dirty when the write was deferred (single-block), clean when the write
/// went to the device (multi-block).
pub open spec fn write_updated(
    old_s: Seq<CacheEntry>,
    new_s: Seq<CacheEntry>,
    rs: Seq<ReadRun>,
    resp: Seq<Seq<u8>>,
    cur: int,
    n: int,
    buf: Seq<u8>,
    sb: int,
    eb: int,
    b: u32,
) -> bool {
    &&& sb <= b <= eb
    &&& data_of(new_s, b) == written_block(old_s, rs, resp, cur, n, buf, b as int)
    &&& dirty_of(new_s, b) == (sb == eb)
}

/// One block's slice of the working buffer is that block's written bytes.
proof fn lemma_working_slice(
    s: Seq<CacheEntry>,
    rs: Seq<ReadRun>,
    resp: Seq<Seq<u8>>,
    cur: int,
    n: int,
    buf: Seq<u8>,
    sb: int,
    eb: int,
    b: int,
)
    requires
        sb <= b <= eb,
    ensures
        working_bytes(s, rs, resp, cur, n, buf, sb, eb).subrange(
            (b - sb) * 512,
            (b - sb) * 512 + 512,
        ) == written_block(s, rs, resp, cur, n, buf, b),
{
    let w = working_bytes(s, rs, resp, cur, n, buf, sb, eb);
    let sub = w.subrange((b - sb) * 512, (b - sb) * 512 + 512);
    assert forall|o2: int| 0 <= o2 < 512 implies sub[o2] == written_block(
        s,
        rs,
        resp,
        cur,
        n,
        buf,
        b,
    )[o2] by {
        lemma_addr_block((b - sb) * 512 + o2, b - sb);
        assert(w[(b - sb) * 512 + o2] == written_block(s, rs, resp, cur, n, buf, b)[o2]);
    }
    assert(sub =~= written_block(s, rs, resp, cur, n, buf, b));
}

/// No two cache entries of a well-formed device share a block number,
/// whatever reads, writes and evictions came before.
pub proof fn lemma_no_two_entries_share_a_block(d: &MassStorageDevice)
    requires
        d.wf(),
    ensures
        forall|i: int, j: int|
            0 <= i < j < d.cache_entries().len() ==> (#[trigger] d.cache_entries()[i]).block != (
            #[trigger] d.cache_entries()[j]).block,
{
}

/// A single-block byte-write fetches at most one block — none when the
/// block is cached — and a later flush writes that block exactly once.
pub proof fn lemma_single_block_write_fetches_at_most_once(
    s: Seq<CacheEntry>,
    sb: int,
)
    ensures
        contains_block(s, sb as u32) ==> write_plan_spec(s, sb, sb).len() == 0,
        !contains_block(s, sb as u32) ==> write_plan_spec(s, sb, sb) == seq![
            ReadRun { lba: sb as u32, count: 1u16 },
        ],
{
}

/// A flush write list names a dirty block exactly once: one entry carries
/// its bytes and no other entry names its block.
pub proof fn lemma_flush_writes_block_once(ws: Seq<BlockWrite>, b: u32, d: Seq<u8>)
    requires
        write_back_has(ws, b, d),
        forall|k1: int, k2: int|
            0 <= k1 < k2 < ws.len() ==> (#[trigger] ws[k1]).lba != (#[trigger] ws[k2]).lba,
    ensures
        exists|k: int|
            0 <= k < ws.len() && (#[trigger] ws[k]).lba == b && ws[k].data@ == d && (forall|
                k2: int,
            |
                0 <= k2 < ws.len() && k2 != k ==> (#[trigger] ws[k2]).lba != b),
{
    let k = choose|k: int| 0 <= k < ws.len() && (#[trigger] ws[k]).lba == b && ws[k].data@ == d;
    assert forall|k2: int| 0 <= k2 < ws.len() && k2 != k implies (#[trigger] ws[k2]).lba != b by {
        if k2 < k {
            assert(ws[k2].lba != ws[k].lba);
        } else {
            assert(ws[k].lba != ws[k2].lba);
        }
    }
    assert(0 <= k < ws.len() && ws[k].lba == b && ws[k].data@ == d && (forall|k2: int|
        0 <= k2 < ws.len() && k2 != k ==> (#[trigger] ws[k2]).lba != b));
}

/// A block the cache holds lies on the device.
pub proof fn lemma_contained_block_bounded(s: Seq<CacheEntry>, total: u32, b: u32)
    requires
        blocks_bounded(s, total),
        contains_block(s, b),
    ensures
        b < total,
{
    let j = choose|j: int| 0 <= j < s.len() && #[trigger] s[j].block == b;
    assert(s[j].block < total);
}

/// A request the cursor clips to a positive length touches only blocks
/// that lie on the device.
pub proof fn lemma_range_in_device(d: &MassStorageDevice, want: int)
    requires
        d.wf(),
        d.clipped_len(want) > 0,
    ensures
        0 <= d.start_block() <= d.end_block(d.clipped_len(want)) < d.total_blocks(),
        d.spec_cursor() + d.clipped_len(want) <= d.total_blocks() * 512,
{
    let n = d.clipped_len(want);
    let cur = d.spec_cursor() as int;
    assert(cur + n <= d.total_blocks() * 512);
    assert(cur / 512 < d.total_blocks()) by (nonlinear_arith)
        requires
            cur < d.total_blocks() * 512,
            d.total_blocks() >= 0,
    ;
    assert((cur + n - 1) / 512 < d.total_blocks()) by (nonlinear_arith)
        requires
            cur + n - 1 < d.total_blocks() * 512,
            d.total_blocks() >= 0,
    ;
    lemma_block_span(cur);
    lemma_block_span(cur + n - 1);
}

/// An address inside block `b`'s span divides back to `b`.
pub proof fn lemma_addr_block(addr: int, b: int)
    requires
        b >= 0,
        b * 512 <= addr < b * 512 + 512,
    ensures
        addr / 512 == b,
        addr % 512 == addr - b * 512,
{
    vstd::arithmetic::div_mod::lemma_fundamental_div_mod_converse(addr, 512, b, addr - b * 512);
}

/// Every non-negative address lies in the span of its own block.
pub proof fn lemma_block_span(addr: int)
    requires
        addr >= 0,
    ensures
        (addr / 512) * 512 <= addr < (addr / 512) * 512 + 512,
        addr % 512 == addr - (addr / 512) * 512,
        addr / 512 >= 0,
{
    vstd::arithmetic::div_mod::lemma_fundamental_div_mod(addr, 512);
    vstd::arithmetic::div_mod::lemma_mod_bound(addr, 512);
}

/// With disjoint runs, the run covering a block is unique.
pub proof fn lemma_run_index(rs: Seq<ReadRun>, i: int, b: int)
    requires
        runs_disjoint(rs),
        0 <= i < rs.len(),
        rs[i].lba <= b < rs[i].lba + rs[i].count,
    ensures
        run_covers(rs, b),
        run_index_of(rs, b) == i,
{
    assert(run_covers(rs, b));
    let j = run_index_of(rs, b);
    if j < i {
        assert(rs[j].lba + rs[j].count <= rs[i].lba);
    }
    if i < j {
        assert(rs[i].lba + rs[i].count <= rs[j].lba);
    }
}

/// The mass-storage device core: geometry and identity from bring-up, the
/// block cache, and the stream cursor.
pub struct MassStorageDevice {
    properties: MassStorageDeviceProperties,
    cache: LruCache,
    cursor: u64,
}

/// Where a seek counts from.
#[derive(Clone, Copy, Debug, PartialEq, Eq, Structural)]
pub enum SeekFrom {
    /// An absolute byte offset.
    Start(u64),
    /// An offset relative to the capacity; negative offsets reach back
    /// into the device.
    End(i64),
    /// An offset relative to the cursor.
    Current(i64),
}

impl MassStorageDevice {
    /// The cache state, for specifications.
    pub closed spec fn spec_cache(&self) -> LruCache {
        self.cache
    }

    /// The cached entries.
    pub open spec fn cache_entries(&self) -> Seq<CacheEntry> {
        self.spec_cache().entries()
    }

    /// The stream cursor.
    pub closed spec fn spec_cursor(&self) -> u64 {
        self.cursor
    }

    /// The device properties.
    pub closed spec fn spec_properties(&self) -> MassStorageDeviceProperties {
        self.properties
    }

    /// How many logical blocks the device has.
    pub open spec fn total_blocks(&self) -> int {
        self.spec_properties().total_number_of_blocks as int
    }

    /// Total capacity in bytes.
    pub open spec fn spec_capacity_bytes(&self) -> int {
        self.spec_properties().capacity as int
    }

    /// Well-formedness: the cache is sound, the geometry uses 512-byte
    /// blocks, the capacity is the block count times the block size, and
    /// every cached block exists on the device.
    pub open spec fn wf(&self) -> bool {
        &&& self.spec_cache().wf()
        &&& self.spec_properties().block_size == 512
        &&& self.spec_properties().capacity == self.spec_properties().total_number_of_blocks
            as int * 512
        &&& blocks_bounded(self.cache_entries(), self.spec_properties().total_number_of_blocks)
    }

    /// How many bytes a request of `want` bytes at the cursor may move:
    /// clipped to the capacity, zero at or past the end.
    pub open spec fn clipped_len(&self, want: int) -> int {
        let cap = self.spec_capacity_bytes();
        let cur = self.spec_cursor() as int;
        if cur >= cap {
            0
        } else if cur + want > cap {
            cap - cur
        } else {
            want
        }
    }

    /// The first block a request at the cursor touches.
    pub open spec fn start_block(&self) -> int {
        self.spec_cursor() as int / 512
    }

    /// The last block a request of `n` bytes at the cursor touches.
    pub open spec fn end_block(&self, n: int) -> int {
        (self.spec_cursor() + n - 1) / 512
    }

    /// Builds the device from what bring-up observed: whether TEST UNIT
    /// READY passed, the INQUIRY data, and the READ CAPACITY data. A device
    /// that is not ready fails `NotReady`; one that is not a direct-access
    /// block device, or whose geometry this cache cannot serve, fails
    /// `IncompatibleDevice`.
    pub fn new(
        unit_ready: bool,
        inquiry: &InquiryResponse,
        capacity: &ReadCapacityResponse,
        cache_capacity: usize,
    ) -> (r: Result<MassStorageDevice, MassStorageDeviceError>)
        requires
            cache_capacity >= 1,
        ensures
            !unit_ready ==> r == Err::<MassStorageDevice, _>(MassStorageDeviceError::NotReady),
            unit_ready && (inquiry.peripheral_qualifier != 0 || inquiry.peripheral_device_type
                != 0) ==> r == Err::<MassStorageDevice, _>(
                MassStorageDeviceError::IncompatibleDevice,
            ),
            unit_ready && inquiry.peripheral_qualifier == 0 && inquiry.peripheral_device_type == 0
                && (capacity.block_length_in_bytes != 512
                || capacity.returned_logical_block_address == u32::MAX) ==> r == Err::<
                MassStorageDevice,
                _,
            >(MassStorageDeviceError::IncompatibleDevice),
            r is Ok <==> (unit_ready && inquiry.peripheral_qualifier == 0
                && inquiry.peripheral_device_type == 0 && capacity.block_length_in_bytes == 512
                && capacity.returned_logical_block_address != u32::MAX),
            r is Ok ==> {
                let d = r->Ok_0;
                &&& d.wf()
                &&& d.spec_cursor() == 0
                &&& d.cache_entries().len() == 0
                &&& d.spec_cache().spec_capacity() == cache_capacity
                &&& d.spec_properties().total_number_of_blocks
                    == capacity.returned_logical_block_address + 1
                &&& d.spec_properties().block_size == 512
                &&& d.spec_properties().name@ == inquiry.vendor_id@ + seq![' ']
                    + inquiry.product_id@
            },
    {
        if !unit_ready {
            return Err(MassStorageDeviceError::NotReady);
        }
        if inquiry.peripheral_qualifier != 0 || inquiry.peripheral_device_type != 0 {
            return Err(MassStorageDeviceError::IncompatibleDevice);
        }
        if capacity.block_length_in_bytes != 512 || capacity.returned_logical_block_address
            == u32::MAX {
            return Err(MassStorageDeviceError::IncompatibleDevice);
        }
        let total = capacity.returned_logical_block_address + 1;
        let mut name = inquiry.vendor_id.clone();
        name.append(" ");
        name.append(inquiry.product_id.as_str());
        proof {
            reveal_strlit(" ");
            assert(" "@ =~= seq![' ']);
        }
        let properties = MassStorageDeviceProperties {
            name,
            capacity: (total as u64) * 512,
            total_number_of_blocks: total,
            block_size: 512,
        };
        Ok(
            MassStorageDevice {
                properties,
                cache: LruCache::new(cache_capacity),
                cursor: 0,
            },
        )
    }

    /// A copy of the device properties.
    pub fn get_properties(&self) -> (r: MassStorageDeviceProperties)
        ensures
            r.name@ == self.spec_properties().name@,
            r.capacity == self.spec_properties().capacity,
            r.total_number_of_blocks == self.spec_properties().total_number_of_blocks,
            r.block_size == self.spec_properties().block_size,
    {
        MassStorageDeviceProperties {
            name: self.properties.name.clone(),
            capacity: self.properties.capacity,
            total_number_of_blocks: self.properties.total_number_of_blocks,
            block_size: self.properties.block_size,
        }
    }

    /// The stream cursor.
    pub fn cursor(&self) -> (r: u64)
        ensures
            r == self.spec_cursor(),
    {
        self.cursor
    }

    /// Moves the cursor. Seeking past the capacity is allowed — later reads
    /// just return nothing — but a seek before byte 0, or beyond what a
    /// 64-bit offset can hold, fails `OutOfRange` and moves nothing.
    pub fn seek(&mut self, pos: SeekFrom) -> (r: Result<u64, MassStorageDeviceError>)
        requires
            old(self).wf(),
        ensures
            final(self).wf(),
            final(self).spec_properties() == old(self).spec_properties(),
            final(self).cache_entries() == old(self).cache_entries(),
            final(self).spec_cache().spec_capacity() == old(self).spec_cache().spec_capacity(),
            ({
                let target: int = match pos {
                    SeekFrom::Start(o) => o as int,
                    SeekFrom::End(o) => old(self).spec_capacity_bytes() + o,
                    SeekFrom::Current(o) => old(self).spec_cursor() + o,
                };
                if 0 <= target <= u64::MAX {
                    r == Ok::<u64, MassStorageDeviceError>(target as u64)
                        && final(self).spec_cursor() == target
                } else {
                    r == Err::<u64, MassStorageDeviceError>(MassStorageDeviceError::OutOfRange)
                        && final(self).spec_cursor() == old(self).spec_cursor()
                }
            }),
    {
        match pos {
            SeekFrom::Start(o) => {
                self.cursor = o;
                Ok(o)
            },
            SeekFrom::End(o) => {
                let base = self.properties.capacity;
                match Self::offset_by(base, o) {
                    Some(t) => {
                        self.cursor = t;
                        Ok(t)
                    },
                    None => Err(MassStorageDeviceError::OutOfRange),
                }
            },
            SeekFrom::Current(o) => {
                let base = self.cursor;
                match Self::offset_by(base, o) {
                    Some(t) => {
                        self.cursor = t;
                        Ok(t)
                    },
                    None => Err(MassStorageDeviceError::OutOfRange),
                }
            },
        }
    }

    /// `base + delta` when it fits an unsigned 64-bit offset.
    fn offset_by(base: u64, delta: i64) -> (r: Option<u64>)
        ensures
            r is Some <==> 0 <= base + delta <= u64::MAX,
            r is Some ==> r->Some_0 == base + delta,
    {
        if delta >= 0 {
            let d = delta as u64;
            if base <= u64::MAX - d {
                Some(base + d)
            } else {
                None
            }
        } else {
            let mag: u64 = if delta == i64::MIN {
                0x8000_0000_0000_0000u64
            } else {
                (-delta) as u64
            };
            if base >= mag {
                Some(base - mag)
            } else {
                None
            }
        }
    }

    /// Plans a byte-read of `want` bytes at the cursor: the READ(10) runs
    /// that fetch exactly the uncached blocks of the request, in ascending
    /// order. Runs never merge across a cached block, and a run never asks
    /// for more blocks than a READ(10) can carry.
    pub fn read_plan(&self, want: usize) -> (runs: Vec<ReadRun>)
        requires
            self.wf(),
        ensures
            ({
                let n = self.clipped_len(want as int);
                let sb = self.start_block();
                let eb = self.end_block(n);
                &&& (n == 0 ==> runs@.len() == 0)
                &&& (n > 0 ==> runs_in_range(runs@, sb, eb))
                &&& (n > 0 ==> runs_disjoint(runs@))
                &&& (n > 0 ==> forall|b: int|
                    sb <= b <= eb ==> (#[trigger] run_covers(runs@, b) <==> !contains_block(
                        self.cache_entries(),
                        b as u32,
                    )))
                &&& (n > 0 ==> forall|i: int|
                    0 <= i < runs@.len() && (#[trigger] runs@[i]).lba + runs@[i].count <= eb
                        ==> (contains_block(
                        self.cache_entries(),
                        (runs@[i].lba + runs@[i].count) as u32,
                    ) || runs@[i].count == 0xffff))
            }),
    {
        let cap = self.properties.capacity;
        let cur = self.cursor;
        let n: u64 = if cur >= cap {
            0
        } else if (want as u64) > cap - cur {
            cap - cur
        } else {
            want as u64
        };
        let mut runs: Vec<ReadRun> = Vec::new();
        if n == 0 {
            return runs;
        }
        let sb: u32 = (cur / 512) as u32;
        let eb: u32 = ((cur + (n - 1)) / 512) as u32;
        proof {
            assert(self.spec_cursor() + n - 1 < self.spec_capacity_bytes());
            assert(self.spec_capacity_bytes() == self.total_blocks() * 512);
            assert((self.spec_cursor() + n - 1) / 512 < self.total_blocks()) by (nonlinear_arith)
                requires
                    self.spec_cursor() + n - 1 < self.total_blocks() * 512,
                    self.total_blocks() >= 0,
            ;
            assert(self.total_blocks() <= u32::MAX);
        }
        let mut b: u32 = sb;
        let mut open: bool = false;
        let mut open_start: u32 = 0;
        while b <= eb
            invariant
                self.wf(),
                sb == self.start_block(),
                eb == self.end_block(n as int),
                n as int == self.clipped_len(want as int),
                n > 0,
                sb <= b <= eb + 1,
                eb < self.total_blocks() <= u32::MAX,
                runs_disjoint(runs@),
                runs_in_range(runs@, sb as int, b - 1),
                open ==> sb <= open_start && open_start < b && b - open_start <= 0xfffe,
                open ==> forall|i: int|
                    0 <= i < runs@.len() ==> (#[trigger] runs@[i]).lba + runs@[i].count
                        <= open_start,
                open ==> forall|bb: u32|
                    open_start <= bb < b ==> !(#[trigger] contains_block(
                        self.cache_entries(),
                        bb,
                    )),
                open ==> forall|bb: int|
                    open_start <= bb < b ==> !(#[trigger] run_covers(runs@, bb)),
                !open ==> forall|bb: int|
                    sb <= bb < b ==> (#[trigger] run_covers(runs@, bb) <==> !contains_block(
                        self.cache_entries(),
                        bb as u32,
                    )),
                open ==> forall|bb: int|
                    sb <= bb < open_start ==> (#[trigger] run_covers(runs@, bb)
                        <==> !contains_block(self.cache_entries(), bb as u32)),
                forall|i: int|
                    0 <= i < runs@.len() ==> (contains_block(
                        self.cache_entries(),
                        ((#[trigger] runs@[i]).lba + runs@[i].count) as u32,
                    ) || runs@[i].count == 0xffff),
            decreases eb + 1 - b,
        {
            proof {
                assert forall|bb: int| b <= bb implies !(#[trigger] run_covers(runs@, bb)) by {
                    if run_covers(runs@, bb) {
                        let i = choose|i: int|
                            0 <= i < runs@.len() && #[trigger] runs@[i].lba <= bb < runs@[i].lba
                                + runs@[i].count;
                        assert(runs@[i].lba + runs@[i].count <= b);
                    }
                }
            }
            let hit = self.cache.contains(b);
            if !hit {
                if !open {
                    open = true;
                    open_start = b;
                }
                if b - open_start + 1 == 0xffff {
                    let r = ReadRun { lba: open_start, count: 0xffff };
                    let ghost prev = runs@;
                    runs.push(r);
                    proof {
                        lemma_push_run(prev, r, runs@);
                        assert forall|bb: int| sb <= bb < b + 1 implies (#[trigger] run_covers(
                            runs@,
                            bb,
                        ) <==> !contains_block(self.cache_entries(), bb as u32)) by {
                            if bb < open_start {
                                assert(run_covers(prev, bb) <==> !contains_block(
                                    self.cache_entries(),
                                    bb as u32,
                                ));
                            } else {
                                assert(r.lba <= bb < r.lba + r.count);
                                assert(run_covers(runs@, bb));
                                assert(!contains_block(self.cache_entries(), bb as u32));
                            }
                        }
                        assert(runs_disjoint(runs@)) by {
                            assert forall|i: int, j: int| 0 <= i < j < runs@.len() implies
                                #[trigger] runs@[i].lba + runs@[i].count
                                <= #[trigger] runs@[j].lba by {
                                if j < prev.len() {
                                    assert(runs@[i] == prev[i] && runs@[j] == prev[j]);
                                } else {
                                    assert(runs@[j] == r);
                                    assert(runs@[i] == prev[i]);
                                    assert(prev[i].lba + prev[i].count <= open_start);
                                }
                            }
                        }
                        assert(runs_in_range(runs@, sb as int, b as int)) by {
                            assert forall|i: int| 0 <= i < runs@.len() implies sb <= (
                            #[trigger] runs@[i]).lba && runs@[i].lba + runs@[i].count <= b + 1
                                && runs@[i].count >= 1 by {
                                if i < prev.len() {
                                    assert(runs@[i] == prev[i]);
                                } else {
                                    assert(runs@[i] == r);
                                }
                            }
                        }
                    }
                    open = false;
                }
            } else {
                if open {
                    let r = ReadRun { lba: open_start, count: (b - open_start) as u16 };
                    let ghost prev = runs@;
                    runs.push(r);
                    proof {
                        lemma_push_run(prev, r, runs@);
                        assert forall|bb: int| sb <= bb < b + 1 implies (#[trigger] run_covers(
                            runs@,
                            bb,
                        ) <==> !contains_block(self.cache_entries(), bb as u32)) by {
                            if bb < open_start {
                                assert(run_covers(prev, bb) <==> !contains_block(
                                    self.cache_entries(),
                                    bb as u32,
                                ));
                            } else if bb < b {
                                assert(r.lba <= bb < r.lba + r.count);
                                assert(run_covers(runs@, bb));
                                assert(!contains_block(self.cache_entries(), bb as u32));
                            } else {
                                assert(contains_block(self.cache_entries(), bb as u32));
                                assert(!run_covers(prev, bb));
                                assert(!(r.lba <= bb < r.lba + r.count));
                                assert(!run_covers(runs@, bb));
                            }
                        }
                        assert(runs_disjoint(runs@)) by {
                            assert forall|i: int, j: int| 0 <= i < j < runs@.len() implies
                                #[trigger] runs@[i].lba + runs@[i].count
                                <= #[trigger] runs@[j].lba by {
                                if j < prev.len() {
                                    assert(runs@[i] == prev[i] && runs@[j] == prev[j]);
                                } else {
                                    assert(runs@[j] == r);
                                    assert(runs@[i] == prev[i]);
                                    assert(prev[i].lba + prev[i].count <= open_start);
                                }
                            }
                        }
                        assert(runs_in_range(runs@, sb as int, b as int)) by {
                            assert forall|i: int| 0 <= i < runs@.len() implies sb <= (
                            #[trigger] runs@[i]).lba && runs@[i].lba + runs@[i].count <= b + 1
                                && runs@[i].count >= 1 by {
                                if i < prev.len() {
                                    assert(runs@[i] == prev[i]);
                                } else {
                                    assert(runs@[i] == r);
                                }
                            }
                        }
                    }
                    open = false;
                }
            }
            b = b + 1;
        }
        if open {
            let r = ReadRun { lba: open_start, count: (b - open_start) as u16 };
            let ghost prev = runs@;
            runs.push(r);
            proof {
                assert forall|bb: int| b <= bb implies !(#[trigger] run_covers(prev, bb)) by {
                    if run_covers(prev, bb) {
                        let i = choose|i: int|
                            0 <= i < prev.len() && #[trigger] prev[i].lba <= bb < prev[i].lba
                                + prev[i].count;
                        assert(prev[i].lba + prev[i].count <= b);
                    }
                }
                lemma_push_run(prev, r, runs@);
                assert forall|bb: int| sb <= bb < b implies (#[trigger] run_covers(runs@, bb)
                    <==> !contains_block(self.cache_entries(), bb as u32)) by {
                    if bb < open_start {
                        assert(run_covers(prev, bb) <==> !contains_block(
                            self.cache_entries(),
                            bb as u32,
                        ));
                    } else {
                        assert(r.lba <= bb < r.lba + r.count);
                        assert(run_covers(runs@, bb));
                        assert(!contains_block(self.cache_entries(), bb as u32));
                    }
                }
                assert(runs_disjoint(runs@)) by {
                    assert forall|i: int, j: int| 0 <= i < j < runs@.len() implies
                        #[trigger] runs@[i].lba + runs@[i].count <= #[trigger] runs@[j].lba by {
                        if j < prev.len() {
                            assert(runs@[i] == prev[i] && runs@[j] == prev[j]);
                        } else {
                            assert(runs@[j] == r);
                            assert(runs@[i] == prev[i]);
                            assert(prev[i].lba + prev[i].count <= open_start);
                        }
                    }
                }
                assert(runs_in_range(runs@, sb as int, eb as int)) by {
                    assert forall|i: int| 0 <= i < runs@.len() implies sb <= (
                    #[trigger] runs@[i]).lba && runs@[i].lba + runs@[i].count <= eb + 1
                        && runs@[i].count >= 1 by {
                        if i < prev.len() {
                            assert(runs@[i] == prev[i]);
                        } else {
                            assert(runs@[i] == r);
                        }
                    }
                }
            }
        }
        runs
    }


    /// Plans a byte-write of `data_len` bytes at the cursor: the READ(10)
    /// commands that fetch the boundary blocks whose bytes outside the
    /// written range must be preserved. A cached boundary block needs no
    /// fetch; interior blocks are fully overwritten and never fetched.
    pub fn write_plan(&self, data_len: usize) -> (runs: Vec<ReadRun>)
        requires
            self.wf(),
        ensures
            ({
                let n = self.clipped_len(data_len as int);
                &&& (n == 0 ==> runs@.len() == 0)
                &&& (n > 0 ==> runs@ == write_plan_spec(
                    self.cache_entries(),
                    self.start_block(),
                    self.end_block(n),
                ))
            }),
    {
        let cap = self.properties.capacity;
        let cur = self.cursor;
        let n: u64 = if cur >= cap {
            0
        } else if (data_len as u64) > cap - cur {
            cap - cur
        } else {
            data_len as u64
        };
        let mut runs: Vec<ReadRun> = Vec::new();
        if n == 0 {
            return runs;
        }
        let sb: u32 = (cur / 512) as u32;
        let eb: u32 = ((cur + (n - 1)) / 512) as u32;
        if !self.cache.contains(sb) {
            runs.push(ReadRun { lba: sb, count: 1 });
        }
        if eb != sb && !self.cache.contains(eb) {
            runs.push(ReadRun { lba: eb, count: 1 });
        }
        proof {
            assert(runs@ =~= write_plan_spec(self.cache_entries(), sb as int, eb as int));
        }
        runs
    }

    /// Applies a byte-read: takes the plan and, for each run, the bytes the
    /// device returned. Cached blocks are served from the cache, fetched
    /// blocks from the responses and admitted clean; the output holds the
    /// requested range. Dirty entries evicted by the admissions come back
    /// as write-backs the caller must issue, in order. The cursor advances
    /// by the number of bytes read.
    #[verifier::loop_isolation(false)]
    #[verifier::rlimit(100)]
    pub fn read_apply(
        &mut self,
        want: usize,
        runs: &Vec<ReadRun>,
        responses: &Vec<Vec<u8>>,
    ) -> (r: (Vec<u8>, Vec<BlockWrite>))
        requires
            old(self).wf(),
            ({
                let n = old(self).clipped_len(want as int);
                n > 0 ==> {
                    &&& runs_in_range(runs@, old(self).start_block(), old(self).end_block(n))
                    &&& runs_disjoint(runs@)
                    &&& (forall|b: int|
                        old(self).start_block() <= b <= old(self).end_block(n) ==> (
                        #[trigger] run_covers(runs@, b) <==> !contains_block(
                            old(self).cache_entries(),
                            b as u32,
                        )))
                }
            }),
            responses_match(runs@, views_of(responses@)),
        ensures
            final(self).wf(),
            final(self).spec_properties() == old(self).spec_properties(),
            final(self).spec_cache().spec_capacity() == old(self).spec_cache().spec_capacity(),
            r.0@.len() == old(self).clipped_len(want as int),
            final(self).spec_cursor() == old(self).spec_cursor() + old(self).clipped_len(
                want as int,
            ),
            forall|j: int|
                0 <= j < r.0@.len() ==> #[trigger] r.0@[j] == fetched_byte(
                    old(self).cache_entries(),
                    runs@,
                    views_of(responses@),
                    old(self).spec_cursor() + j,
                ),
            forall|b: u32|
                #[trigger] contains_block(final(self).cache_entries(), b) ==> entry_preserved(
                    old(self).cache_entries(),
                    final(self).cache_entries(),
                    b,
                ) || read_admitted(
                    old(self).cache_entries(),
                    final(self).cache_entries(),
                    runs@,
                    views_of(responses@),
                    old(self).start_block(),
                    old(self).end_block(old(self).clipped_len(want as int)),
                    b,
                ),
            forall|b: u32|
                #[trigger] contains_block(old(self).cache_entries(), b) && dirty_of(
                    old(self).cache_entries(),
                    b,
                ) ==> contains_block(final(self).cache_entries(), b) || write_back_has(
                    r.1@,
                    b,
                    data_of(old(self).cache_entries(), b),
                ),
            forall|k: int|
                0 <= k < r.1@.len() ==> contains_block(
                    old(self).cache_entries(),
                    (#[trigger] r.1@[k]).lba,
                ) && dirty_of(old(self).cache_entries(), r.1@[k].lba) && r.1@[k].data@ == data_of(
                    old(self).cache_entries(),
                    r.1@[k].lba,
                ) && r.1@[k].data@.len() == 512 && !contains_block(
                    final(self).cache_entries(),
                    r.1@[k].lba,
                ),
            forall|k1: int, k2: int|
                0 <= k1 < k2 < r.1@.len() ==> (#[trigger] r.1@[k1]).lba != (
                #[trigger] r.1@[k2]).lba,
            old(self).clipped_len(want as int) == 0 ==> final(self).cache_entries() == old(
                self,
            ).cache_entries() && r.1@.len() == 0,
    {
        let ghost olds = old(self).cache_entries();
        let ghost resp = views_of(responses@);
        let cap = self.properties.capacity;
        let cur = self.cursor;
        let n: u64 = if cur >= cap {
            0
        } else if (want as u64) > cap - cur {
            cap - cur
        } else {
            want as u64
        };
        let nn = n as usize;
        let mut out: Vec<u8> = vec![0u8; nn];
        let mut wb: Vec<BlockWrite> = Vec::new();
        if n == 0 {
            return (out, wb);
        }
        proof {
            assert(cur / 512 < self.total_blocks()) by (nonlinear_arith)
                requires
                    cur < self.total_blocks() * 512,
                    self.total_blocks() >= 0,
            ;
            assert((cur + n - 1) / 512 < self.total_blocks()) by (nonlinear_arith)
                requires
                    cur + n - 1 < self.total_blocks() * 512,
                    self.total_blocks() >= 0,
            ;
            lemma_block_span(cur as int);
            lemma_block_span(cur + n - 1);
        }
        let sb: u32 = (cur / 512) as u32;
        let eb: u32 = ((cur + (n - 1)) / 512) as u32;
        proof {
            assert(sb as int == cur as int / 512);
            assert(eb as int == (cur + n - 1) / 512);
            assert(eb < self.total_blocks());
        }
        let mut b: u32 = sb;
        while b <= eb
            invariant
                sb <= b <= eb + 1,
                self.wf(),
                self.spec_properties() == old(self).spec_properties(),
                self.spec_cursor() == old(self).spec_cursor(),
                self.spec_cache().spec_capacity() == old(self).spec_cache().spec_capacity(),
                out@.len() == nn,
                forall|b2: u32| #[trigger]
                    contains_block(self.cache_entries(), b2) == contains_block(olds, b2),
                forall|b2: u32|
                    contains_block(olds, b2) ==> #[trigger] data_of(self.cache_entries(), b2)
                        == data_of(olds, b2),
                forall|b2: u32|
                    contains_block(olds, b2) ==> #[trigger] dirty_of(self.cache_entries(), b2)
                        == dirty_of(olds, b2),
                forall|j: int|
                    0 <= j < nn && (cur + j) / 512 < b && contains_block(
                        olds,
                        ((cur + j) / 512) as u32,
                    ) ==> #[trigger] out@[j] == data_of(olds, ((cur + j) / 512) as u32)[(cur + j)
                        % 512],
            decreases eb + 1 - b,
        {
            match self.cache.get_copy(b) {
                Some(d) => {
                    let bs: u64 = (b as u64) * 512;
                    let lo: u64 = if cur > bs {
                        cur
                    } else {
                        bs
                    };
                    let req_end: u64 = cur + n;
                    let block_end: u64 = bs + 512;
                    let hi: u64 = if req_end < block_end {
                        req_end
                    } else {
                        block_end
                    };
                    proof {
                        assert(cur < block_end);
                        assert(bs <= cur + n - 1);
                    }
                    let ghost pre_out = out@;
                    crate::util::splice_bytes(
                        &mut out,
                        (lo - cur) as usize,
                        &d,
                        (lo - bs) as usize,
                        (hi - lo) as usize,
                    );
                    proof {
                        assert forall|j: int|
                            0 <= j < nn && (cur + j) / 512 < b + 1 && contains_block(
                                olds,
                                ((cur + j) / 512) as u32,
                            ) implies #[trigger] out@[j] == data_of(
                            olds,
                            ((cur + j) / 512) as u32,
                        )[(cur + j) % 512] by {
                            let addr = cur + j;
                            lemma_block_span(addr);
                            let blk = addr / 512;
                            if blk == b {
                                assert(lo <= addr < hi);
                                assert(out@[j] == d@[addr - lo + (lo - bs)]);
                                assert(addr - bs == addr % 512) by {
                                    lemma_addr_block(addr, b as int);
                                }
                                assert(d@ == data_of(olds, b));
                            } else {
                                assert(addr < bs || addr >= block_end);
                                assert(!((lo - cur) <= j < (lo - cur) + (hi - lo)));
                                assert(out@[j] == pre_out[j]);
                            }
                        }
                    }
                },
                None => {},
            }
            proof {
                assert forall|b3: u32| #[trigger] contains_block(self.cache_entries(), b3)
                    implies b3 == b || contains_block(olds, b3) by {}
                lemma_bounded_put(
                    olds,
                    self.cache_entries(),
                    self.properties.total_number_of_blocks,
                    b,
                );
            }
            b = b + 1;
        }
        proof {
            assert forall|b2: u32| #[trigger] contains_block(self.cache_entries(), b2)
                implies entry_preserved(olds, self.cache_entries(), b2) || read_admitted(
                olds,
                self.cache_entries(),
                runs@,
                resp,
                sb as int,
                eb as int,
                b2,
            ) by {
                assert(contains_block(olds, b2));
            }
        }
        let mut ri: usize = 0;
        while ri < runs.len()
            invariant
                ri <= runs@.len(),
                self.wf(),
                self.spec_properties() == old(self).spec_properties(),
                self.spec_cursor() == old(self).spec_cursor(),
                self.spec_cache().spec_capacity() == old(self).spec_cache().spec_capacity(),
                out@.len() == nn,
                forall|b2: u32|
                    #[trigger] contains_block(self.cache_entries(), b2) ==> entry_preserved(
                        olds,
                        self.cache_entries(),
                        b2,
                    ) || read_admitted(
                        olds,
                        self.cache_entries(),
                        runs@,
                        resp,
                        sb as int,
                        eb as int,
                        b2,
                    ),
                forall|b2: u32|
                    #[trigger] contains_block(olds, b2) && dirty_of(olds, b2) ==> contains_block(
                        self.cache_entries(),
                        b2,
                    ) || write_back_has(wb@, b2, data_of(olds, b2)),
                forall|k: int|
                    0 <= k < wb@.len() ==> contains_block(olds, (#[trigger] wb@[k]).lba)
                        && dirty_of(olds, wb@[k].lba) && wb@[k].data@ == data_of(
                        olds,
                        wb@[k].lba,
                    ) && wb@[k].data@.len() == 512 && !contains_block(
                        self.cache_entries(),
                        wb@[k].lba,
                    ),
                forall|k1: int, k2: int|
                    0 <= k1 < k2 < wb@.len() ==> (#[trigger] wb@[k1]).lba != (
                    #[trigger] wb@[k2]).lba,
                forall|j: int|
                    0 <= j < nn && contains_block(olds, ((cur + j) / 512) as u32)
                        ==> #[trigger] out@[j] == data_of(olds, ((cur + j) / 512) as u32)[(cur + j)
                        % 512],
                forall|j: int|
                    0 <= j < nn && !contains_block(olds, ((cur + j) / 512) as u32)
                        && processed_block(runs@, ri as int, 0, (cur + j) / 512)
                        ==> #[trigger] out@[j] == fetched_byte(olds, runs@, resp, cur + j),
            decreases runs@.len() - ri,
        {
            let run = runs[ri];
            let mut k: u16 = 0;
            while k < run.count
                invariant
                    k <= run.count,
                    run == runs@[ri as int],
                    ri < runs@.len(),
                    self.wf(),
                    self.spec_properties() == old(self).spec_properties(),
                    self.spec_cursor() == old(self).spec_cursor(),
                    self.spec_cache().spec_capacity() == old(self).spec_cache().spec_capacity(),
                    out@.len() == nn,
                    forall|b2: u32|
                        #[trigger] contains_block(self.cache_entries(), b2) ==> entry_preserved(
                            olds,
                            self.cache_entries(),
                            b2,
                        ) || read_admitted(
                            olds,
                            self.cache_entries(),
                            runs@,
                            resp,
                            sb as int,
                            eb as int,
                            b2,
                        ),
                    forall|b2: u32|
                        #[trigger] contains_block(olds, b2) && dirty_of(olds, b2)
                            ==> contains_block(self.cache_entries(), b2) || write_back_has(
                            wb@,
                            b2,
                            data_of(olds, b2),
                        ),
                    forall|k2: int|
                        0 <= k2 < wb@.len() ==> contains_block(olds, (#[trigger] wb@[k2]).lba)
                            && dirty_of(olds, wb@[k2].lba) && wb@[k2].data@ == data_of(
                            olds,
                            wb@[k2].lba,
                        ) && wb@[k2].data@.len() == 512 && !contains_block(
                            self.cache_entries(),
                            wb@[k2].lba,
                        ),
                    forall|k1: int, k2: int|
                        0 <= k1 < k2 < wb@.len() ==> (#[trigger] wb@[k1]).lba != (
                        #[trigger] wb@[k2]).lba,
                    forall|j: int|
                        0 <= j < nn && contains_block(olds, ((cur + j) / 512) as u32)
                            ==> #[trigger] out@[j] == data_of(olds, ((cur + j) / 512) as u32)[(cur
                            + j) % 512],
                    forall|j: int|
                        0 <= j < nn && !contains_block(olds, ((cur + j) / 512) as u32)
                            && processed_block(runs@, ri as int, k as int, (cur + j) / 512)
                            ==> #[trigger] out@[j] == fetched_byte(olds, runs@, resp, cur + j),
                decreases run.count - k,
            {
                let b2: u32 = run.lba + (k as u32);
                proof {
                    assert(run.lba + run.count <= eb + 1);
                    assert(b2 <= eb);
                    lemma_run_index(runs@, ri as int, b2 as int);
                    assert(!contains_block(olds, b2));
                }
                let resp_i = &responses[ri];
                proof {
                    assert(resp[ri as int] == resp_i@);
                    assert(resp_i@.len() == run.count * 512);
                    assert((k as int) * 512 + 512 <= run.count * 512) by (nonlinear_arith)
                        requires
                            k < run.count,
                    ;
                    assert(resp_i@.len() <= usize::MAX) by {
                        assert(resp_i.len() == resp_i@.len());
                    }
                }
                let off: usize = (k as usize) * 512;
                let d = crate::util::copy_range(resp_i, off, off + 512);
                let ghost fetched = fetched_block(olds, runs@, resp, b2 as int);
                proof {
                    assert(fetched =~= d@) by {
                        assert(run_index_of(runs@, b2 as int) == ri as int);
                        assert((b2 - run.lba) * 512 == (k as int) * 512);
                    }
                }
                let bs: u64 = (b2 as u64) * 512;
                let lo: u64 = if cur > bs {
                    cur
                } else {
                    bs
                };
                let req_end: u64 = cur + n;
                let block_end: u64 = bs + 512;
                let hi: u64 = if req_end < block_end {
                    req_end
                } else {
                    block_end
                };
                proof {
                    assert(sb <= b2);
                    assert(cur < block_end);
                    assert(bs <= cur + n - 1);
                }
                let ghost pre_out = out@;
                crate::util::splice_bytes(
                    &mut out,
                    (lo - cur) as usize,
                    &d,
                    (lo - bs) as usize,
                    (hi - lo) as usize,
                );
                let ghost pre = self.cache_entries();
                let ghost pre_wb = wb@;
                let evicted = self.cache.put(b2, d, false);
                match evicted {
                    Some(ev) => {
                        proof {
                            assert(contains_block(pre, ev.block));
                            if ev.dirty {
                                assert(entry_preserved(olds, pre, ev.block) || read_admitted(
                                    olds,
                                    pre,
                                    runs@,
                                    resp,
                                    sb as int,
                                    eb as int,
                                    ev.block,
                                ));
                                assert(entry_preserved(olds, pre, ev.block));
                            }
                        }
                        if ev.dirty {
                            proof {
                                assert forall|k2: int| 0 <= k2 < wb@.len() implies (
                                #[trigger] wb@[k2]).lba != ev.block by {
                                    assert(!contains_block(pre, wb@[k2].lba));
                                }
                            }
                            wb.push(BlockWrite { lba: ev.block, data: ev.data });
                        }
                    },
                    None => {},
                }
                proof {
                    let news = self.cache_entries();
                    assert forall|b3: u32| #[trigger] contains_block(news, b3)
                        implies entry_preserved(olds, news, b3) || read_admitted(
                        olds,
                        news,
                        runs@,
                        resp,
                        sb as int,
                        eb as int,
                        b3,
                    ) by {
                        if b3 == b2 {
                            assert(data_of(news, b2) == fetched);
                            assert(read_admitted(olds, news, runs@, resp, sb as int, eb as int, b2));
                        } else {
                            assert(contains_block(pre, b3));
                            assert(data_of(news, b3) == data_of(pre, b3));
                            assert(dirty_of(news, b3) == dirty_of(pre, b3));
                        }
                    }
                    assert forall|b3: u32| #[trigger] contains_block(olds, b3) && dirty_of(
                        olds,
                        b3,
                    ) implies contains_block(news, b3) || write_back_has(wb@, b3, data_of(olds, b3))
                        by {
                        assert(b3 != b2);
                        if contains_block(pre, b3) {
                            if evicted is Some && evicted->Some_0.block == b3 {
                                let ev = evicted->Some_0;
                                assert(entry_preserved(olds, pre, b3));
                                assert(ev.dirty == dirty_of(pre, b3));
                                assert(ev.dirty);
                                assert(wb@[wb@.len() - 1].lba == b3);
                                assert(wb@[wb@.len() - 1].data@ == data_of(olds, b3));
                            } else {
                                assert(contains_block(news, b3));
                            }
                        } else {
                            assert(write_back_has(pre_wb, b3, data_of(olds, b3)));
                            let k2 = choose|k2: int|
                                0 <= k2 < pre_wb.len() && #[trigger] pre_wb[k2].lba == b3
                                    && pre_wb[k2].data@ == data_of(olds, b3);
                            assert(wb@[k2] == pre_wb[k2]);
                        }
                    }
                    assert forall|k2: int| 0 <= k2 < wb@.len() implies contains_block(
                        olds,
                        (#[trigger] wb@[k2]).lba,
                    ) && dirty_of(olds, wb@[k2].lba) && wb@[k2].data@ == data_of(
                        olds,
                        wb@[k2].lba,
                    ) && wb@[k2].data@.len() == 512 && !contains_block(news, wb@[k2].lba) by {
                        if k2 < pre_wb.len() {
                            assert(wb@[k2] == pre_wb[k2]);
                            assert(wb@[k2].lba != b2);
                        } else {
                            let ev = evicted->Some_0;
                            assert(wb@[k2].lba == ev.block);
                            assert(entry_preserved(olds, pre, ev.block));
                            assert(wb@[k2].data@ == data_of(pre, ev.block));
                            assert(!contains_block(news, ev.block));
                        }
                    }
                    assert forall|j: int|
                        0 <= j < nn && !contains_block(olds, ((cur + j) / 512) as u32)
                            && processed_block(runs@, ri as int, k + 1, (cur + j) / 512)
                            implies #[trigger] out@[j] == fetched_byte(olds, runs@, resp, cur + j)
                        by {
                        let addr = cur + j;
                        lemma_block_span(addr);
                        let blk = addr / 512;
                        if blk == b2 {
                            assert(lo <= addr < hi);
                            assert(out@[j] == d@[addr - lo + (lo - bs)]);
                            assert(addr - bs == addr % 512) by {
                                lemma_addr_block(addr, b2 as int);
                            }
                            assert(fetched_byte(olds, runs@, resp, addr) == fetched[addr % 512]);
                        } else {
                            assert(addr < bs || addr >= block_end);
                            assert(!((lo - cur) <= j < (lo - cur) + (hi - lo)));
                            assert(out@[j] == pre_out[j]);
                            assert(processed_block(runs@, ri as int, k as int, blk));
                        }
                    }
                    assert forall|j: int|
                        0 <= j < nn && contains_block(olds, ((cur + j) / 512) as u32)
                            implies #[trigger] out@[j] == data_of(olds, ((cur + j) / 512) as u32)[(
                        cur + j) % 512] by {
                        let addr = cur + j;
                        lemma_block_span(addr);
                        let blk = addr / 512;
                        assert(blk != b2);
                        assert(addr < bs || addr >= block_end);
                        assert(!((lo - cur) <= j < (lo - cur) + (hi - lo)));
                        assert(out@[j] == pre_out[j]);
                    }
                    assert forall|b3: u32| #[trigger] contains_block(news, b3) implies b3 == b2
                        || contains_block(pre, b3) by {}
                    lemma_bounded_put(pre, news, self.properties.total_number_of_blocks, b2);
                }
                k = k + 1;
            }
            proof {
                assert forall|bb: int|
                    processed_block(runs@, ri as int, run.count as int, bb) implies
                    #[trigger] processed_block(runs@, ri + 1, 0, bb) by {
                    if runs@[ri as int].lba <= bb < runs@[ri as int].lba + run.count {
                        assert(0 <= ri < ri + 1 && runs@[ri as int].lba <= bb < runs@[
                            ri as int
                        ].lba + runs@[ri as int].count);
                    }
                }
            }
            ri = ri + 1;
        }
        proof {
            assert forall|j: int| 0 <= j < nn implies #[trigger] out@[j] == fetched_byte(
                olds,
                runs@,
                resp,
                cur + j,
            ) by {
                let addr = cur + j;
                lemma_block_span(addr);
                lemma_block_span(cur + n - 1);
                let blk = addr / 512;
                assert(blk * 512 <= addr <= cur + n - 1 < (eb + 1) * 512);
                assert(blk <= eb as int);
                if !contains_block(olds, blk as u32) {
                    assert(run_covers(runs@, blk));
                    let i = choose|i: int|
                        0 <= i < runs@.len() && #[trigger] runs@[i].lba <= blk < runs@[i].lba
                            + runs@[i].count;
                    assert(processed_block(runs@, runs@.len() as int, 0, blk));
                } else {
                    assert(fetched_byte(olds, runs@, resp, addr) == data_of(olds, blk as u32)[addr
                        % 512]);
                }
            }
        }
        self.cursor = cur + n;
        (out, wb)
    }


    /// Applies a byte-write of `buf` at the cursor: takes the boundary
    /// fetch plan and, for each of its runs, the bytes the device returned.
    /// A single-block write splices the payload into the block and defers
    /// it, dirty, to the cache; a multi-block write builds one working
    /// buffer and returns it as a WRITE(10) the caller must issue first,
    /// admitting the written blocks clean. Dirty entries evicted along the
    /// way come back as write-backs the caller issues after it. The cursor
    /// advances by the number of bytes written.
    #[verifier::loop_isolation(false)]
    #[verifier::rlimit(100)]
    pub fn write_apply(
        &mut self,
        buf: &Vec<u8>,
        runs: &Vec<ReadRun>,
        responses: &Vec<Vec<u8>>,
    ) -> (r: (usize, Option<BlockWrite>, Vec<BlockWrite>))
        requires
            old(self).wf(),
            buf@.len() + 1024 <= usize::MAX,
            ({
                let n = old(self).clipped_len(buf@.len() as int);
                n > 0 ==> runs@ == write_plan_spec(
                    old(self).cache_entries(),
                    old(self).start_block(),
                    old(self).end_block(n),
                )
            }),
            responses_match(runs@, views_of(responses@)),
        ensures
            final(self).wf(),
            final(self).spec_properties() == old(self).spec_properties(),
            final(self).spec_cache().spec_capacity() == old(self).spec_cache().spec_capacity(),
            r.0 == old(self).clipped_len(buf@.len() as int),
            final(self).spec_cursor() == old(self).spec_cursor() + r.0,
            ({
                let n = old(self).clipped_len(buf@.len() as int);
                let olds = old(self).cache_entries();
                let news = final(self).cache_entries();
                let resp = views_of(responses@);
                let cur = old(self).spec_cursor() as int;
                let sb = old(self).start_block();
                let eb = old(self).end_block(n);
                &&& (n == 0 ==> news == olds && r.1 is None && r.2@.len() == 0)
                &&& (r.1 is Some <==> (n > 0 && sb != eb))
                &&& (r.1 is Some ==> {
                    let m = r.1->Some_0;
                    &&& m.lba == sb
                    &&& m.data@ == working_bytes(olds, runs@, resp, cur, n, buf@, sb, eb)
                    &&& m.data@.len() == (eb - sb + 1) * 512
                })
                &&& (n > 0 && sb == eb ==> contains_block(news, sb as u32))
                &&& (n > 0 ==> forall|b: u32|
                    #[trigger] contains_block(news, b) ==> write_updated(
                        olds,
                        news,
                        runs@,
                        resp,
                        cur,
                        n,
                        buf@,
                        sb,
                        eb,
                        b,
                    ) || ((b < sb || b > eb) && entry_preserved(olds, news, b)))
                &&& (forall|b: u32|
                    #[trigger] contains_block(olds, b) && dirty_of(olds, b) && (b < sb || b > eb)
                        ==> contains_block(news, b) || write_back_has(
                        r.2@,
                        b,
                        data_of(olds, b),
                    ))
                &&& (forall|k: int|
                    0 <= k < r.2@.len() ==> contains_block(olds, (#[trigger] r.2@[k]).lba)
                        && dirty_of(olds, r.2@[k].lba) && r.2@[k].data@ == data_of(
                        olds,
                        r.2@[k].lba,
                    ) && r.2@[k].data@.len() == 512 && !contains_block(news, r.2@[k].lba)
                        && (r.2@[k].lba < sb || r.2@[k].lba > eb))
                &&& (forall|k1: int, k2: int|
                    0 <= k1 < k2 < r.2@.len() ==> (#[trigger] r.2@[k1]).lba != (
                    #[trigger] r.2@[k2]).lba)
            }),
    {
        let ghost olds = old(self).cache_entries();
        let ghost resp = views_of(responses@);
        let cap = self.properties.capacity;
        let cur = self.cursor;
        let blen = buf.len();
        let n: u64 = if cur >= cap {
            0
        } else if (blen as u64) > cap - cur {
            cap - cur
        } else {
            blen as u64
        };
        let nn = n as usize;
        let mut evs: Vec<BlockWrite> = Vec::new();
        if n == 0 {
            return (0, None, evs);
        }
        proof {
            assert(cur / 512 < self.total_blocks()) by (nonlinear_arith)
                requires
                    cur < self.total_blocks() * 512,
                    self.total_blocks() >= 0,
            ;
            assert((cur + n - 1) / 512 < self.total_blocks()) by (nonlinear_arith)
                requires
                    cur + n - 1 < self.total_blocks() * 512,
                    self.total_blocks() >= 0,
            ;
            lemma_block_span(cur as int);
            lemma_block_span(cur + n - 1);
        }
        let sb: u32 = (cur / 512) as u32;
        let eb: u32 = ((cur + (n - 1)) / 512) as u32;
        proof {
            assert(sb as int == cur as int / 512);
            assert(eb as int == (cur + n - 1) / 512);
            assert(eb < self.total_blocks());
            assert(sb <= eb);
        }
        let pay_at: usize = (cur - (sb as u64) * 512) as usize;
        if sb == eb {
            let base: Vec<u8> = match self.cache.get_copy(sb) {
                Some(d) => d,
                None => {
                    proof {
                        assert(runs@ =~= seq![ReadRun { lba: sb, count: 1u16 }]);
                        assert(resp[0].len() == 512);
                        assert(resp[0] == responses@[0]@);
                        assert(responses@[0]@.len() <= usize::MAX) by {
                            assert(responses@[0].len() == responses@[0]@.len());
                        }
                    }
                    let r0 = &responses[0];
                    crate::util::copy_range(r0, 0, r0.len())
                },
            };
            proof {
                assert(base@ == fetched_block(olds, runs@, resp, sb as int)) by {
                    if !contains_block(olds, sb) {
                        lemma_run_index(runs@, 0, sb as int);
                        assert(resp[0].subrange(0, 512) =~= resp[0]);
                    }
                }
                assert(base@.len() == 512);
            }
            let mut data = base;
            crate::util::splice_bytes(&mut data, pay_at, buf, 0, nn);
            proof {
                assert(data@ =~= written_block(olds, runs@, resp, cur as int, n as int, buf@, sb as int)) by {
                    assert forall|o: int| 0 <= o < 512 implies data@[o] == written_block(
                        olds,
                        runs@,
                        resp,
                        cur as int,
                        n as int,
                        buf@,
                        sb as int,
                    )[o] by {
                        let addr = (sb as int) * 512 + o;
                        assert(cur <= addr < cur + n <==> pay_at <= o < pay_at + nn);
                    }
                }
            }
            let ghost pre = self.cache_entries();
            let evicted = self.cache.put(sb, data, true);
            match evicted {
                Some(ev) => {
                    proof {
                        assert(contains_block(pre, ev.block) && ev.block != sb);
                        assert(contains_block(olds, ev.block));
                        assert(ev.data@ == data_of(olds, ev.block));
                        assert(ev.dirty == dirty_of(olds, ev.block));
                    }
                    if ev.dirty {
                        evs.push(BlockWrite { lba: ev.block, data: ev.data });
                    }
                },
                None => {},
            }
            proof {
                let news = self.cache_entries();
                assert forall|b3: u32| #[trigger] contains_block(olds, b3) && dirty_of(olds, b3)
                    && (b3 < sb || b3 > eb) implies contains_block(news, b3) || write_back_has(
                    evs@,
                    b3,
                    data_of(olds, b3),
                ) by {
                    assert(b3 != sb);
                    assert(contains_block(pre, b3));
                    if evicted is Some && evicted->Some_0.block == b3 {
                        let ev = evicted->Some_0;
                        assert(ev.dirty);
                        assert(evs@[0].lba == b3 && evs@[0].data@ == data_of(olds, b3));
                    } else {
                        assert(contains_block(news, b3));
                    }
                }
                assert forall|k2: int| 0 <= k2 < evs@.len() implies contains_block(
                    olds,
                    (#[trigger] evs@[k2]).lba,
                ) && dirty_of(olds, evs@[k2].lba) && evs@[k2].data@ == data_of(
                    olds,
                    evs@[k2].lba,
                ) && evs@[k2].data@.len() == 512 && !contains_block(news, evs@[k2].lba)
                    && (evs@[k2].lba < sb || evs@[k2].lba > eb) by {
                    let ev = evicted->Some_0;
                    assert(k2 == 0 && evs@[0].lba == ev.block);
                }
                assert forall|b3: u32| #[trigger] contains_block(news, b3)
                    implies write_updated(
                    olds,
                    news,
                    runs@,
                    resp,
                    cur as int,
                    n as int,
                    buf@,
                    sb as int,
                    eb as int,
                    b3,
                ) || ((b3 < sb || b3 > eb) && entry_preserved(olds, news, b3)) by {
                    if b3 == sb {
                        assert(write_updated(
                            olds,
                            news,
                            runs@,
                            resp,
                            cur as int,
                            n as int,
                            buf@,
                            sb as int,
                            eb as int,
                            b3,
                        ));
                    } else {
                        assert(contains_block(pre, b3));
                    }
                }
                assert forall|b3: u32| #[trigger] contains_block(news, b3) implies b3 == sb
                    || contains_block(olds, b3) by {}
                lemma_bounded_put(olds, news, self.properties.total_number_of_blocks, sb);
            }
            self.cursor = cur + n;
            return (nn, None, evs);
        }
        // multi-block: build the working buffer from the boundary blocks
        // and the payload, then admit every written block clean
        let num: usize = (eb - sb + 1) as usize;
        proof {
            assert((eb as int) * 512 <= cur + n - 1);
            assert(cur < (sb as int) * 512 + 512);
            assert((num as int) * 512 <= n + 1022);
        }
        let mut w: Vec<u8> = vec![0u8; num * 512];
        let cached_first = self.cache.contains(sb);
        proof {
            if !cached_first {
                assert(runs@[0] == ReadRun { lba: sb, count: 1u16 });
                assert(runs_disjoint(runs@));
            } else if !contains_block(olds, eb) {
                assert(runs@ =~= seq![ReadRun { lba: eb, count: 1u16 }]);
            } else {
                assert(runs@ =~= Seq::<ReadRun>::empty());
            }
            assert(runs_disjoint(runs@)) by {
                assert forall|i: int, j: int| 0 <= i < j < runs@.len() implies
                    #[trigger] runs@[i].lba + runs@[i].count <= #[trigger] runs@[j].lba by {
                    assert(i == 0 && j == 1);
                    assert(runs@[0].lba == sb && runs@[1].lba == eb);
                }
            }
        }
        let first: Vec<u8> = match self.cache.get_copy(sb) {
            Some(d) => d,
            None => {
                proof {
                    assert(resp[0].len() == 512);
                    assert(resp[0] == responses@[0]@);
                    assert(responses@[0]@.len() <= usize::MAX) by {
                        assert(responses@[0].len() == responses@[0]@.len());
                    }
                }
                let r0 = &responses[0];
                crate::util::copy_range(r0, 0, r0.len())
            },
        };
        proof {
            assert(first@ == fetched_block(olds, runs@, resp, sb as int)) by {
                if !contains_block(olds, sb) {
                    lemma_run_index(runs@, 0, sb as int);
                    assert(resp[0].subrange(0, 512) =~= resp[0]);
                }
            }
            assert(first@.len() == 512);
        }
        let ridx: usize = if cached_first {
            0
        } else {
            1
        };
        let last: Vec<u8> = match self.cache.get_copy(eb) {
            Some(d) => d,
            None => {
                proof {
                    assert(runs@[ridx as int] == ReadRun { lba: eb, count: 1u16 });
                    assert(resp[ridx as int].len() == 512);
                    assert(resp[ridx as int] == responses@[ridx as int]@);
                    assert(responses@[ridx as int]@.len() <= usize::MAX) by {
                        assert(responses@[ridx as int].len() == responses@[ridx as int]@.len());
                    }
                }
                let rl = &responses[ridx];
                crate::util::copy_range(rl, 0, rl.len())
            },
        };
        proof {
            assert(last@ == fetched_block(olds, runs@, resp, eb as int)) by {
                if !contains_block(olds, eb) {
                    lemma_run_index(runs@, ridx as int, eb as int);
                    assert(resp[ridx as int].subrange(0, 512) =~= resp[ridx as int]);
                }
            }
            assert(last@.len() == 512);
        }
        crate::util::splice_bytes(&mut w, 0, &first, 0, 512);
        crate::util::splice_bytes(&mut w, (num - 1) * 512, &last, 0, 512);
        crate::util::splice_bytes(&mut w, pay_at, buf, 0, nn);
        let ghost wspec = working_bytes(olds, runs@, resp, cur as int, n as int, buf@, sb as int, eb as int);
        proof {
            assert(w@ =~= wspec) by {
                assert forall|o: int| 0 <= o < num * 512 implies w@[o] == wspec[o] by {
                    lemma_block_span(o);
                    let q = o / 512;
                    let b3 = sb as int + q;
                    lemma_addr_block(o, q);
                    let addr = (sb as int) * 512 + o;
                    assert(b3 * 512 + o % 512 == addr);
                    assert(cur <= addr < cur + n <==> pay_at <= o < pay_at + nn);
                    if pay_at <= o < pay_at + nn {
                        assert(w@[o] == buf@[o - pay_at]);
                    } else if o < 512 {
                        assert(q == 0 && b3 == sb);
                        assert(w@[o] == first@[o]);
                    } else if o >= (num - 1) * 512 {
                        assert(q == num - 1 && b3 == eb) by {
                            lemma_addr_block(o, num - 1);
                        }
                        assert(w@[o] == last@[o - (num - 1) * 512]);
                    } else {
                        assert((sb as int) * 512 + 512 <= addr < (eb as int) * 512);
                        assert(cur < (sb as int) * 512 + 512);
                        assert((eb as int) * 512 <= cur + n - 1);
                        assert(false);
                    }
                }
            }
        }
        proof {
            assert forall|b3: u32| #[trigger] contains_block(self.cache_entries(), b3)
                implies entry_preserved(olds, self.cache_entries(), b3) by {
                assert(contains_block(olds, b3));
            }
            assert forall|b3: u32| #[trigger] contains_block(self.cache_entries(), b3)
                implies b3 == sb || contains_block(olds, b3) by {}
            lemma_bounded_put(
                olds,
                self.cache_entries(),
                self.properties.total_number_of_blocks,
                sb,
            );
        }
        let mut i: usize = 0;
        while i < num
            invariant
                i <= num,
                self.wf(),
                self.spec_properties() == old(self).spec_properties(),
                self.spec_cursor() == old(self).spec_cursor(),
                self.spec_cache().spec_capacity() == old(self).spec_cache().spec_capacity(),
                w@ == wspec,
                w@.len() == num * 512,
                forall|b3: u32|
                    #[trigger] contains_block(self.cache_entries(), b3) ==> (sb <= b3 < sb + i
                        && !dirty_of(self.cache_entries(), b3) && data_of(self.cache_entries(), b3)
                        == written_block(olds, runs@, resp, cur as int, n as int, buf@, b3 as int))
                        || (!(sb <= b3 < sb + i) && entry_preserved(
                        olds,
                        self.cache_entries(),
                        b3,
                    )),
                forall|b3: u32|
                    #[trigger] contains_block(olds, b3) && dirty_of(olds, b3) && (b3 < sb || b3
                        > eb) ==> contains_block(self.cache_entries(), b3) || write_back_has(
                        evs@,
                        b3,
                        data_of(olds, b3),
                    ),
                forall|k: int|
                    0 <= k < evs@.len() ==> contains_block(olds, (#[trigger] evs@[k]).lba)
                        && dirty_of(olds, evs@[k].lba) && evs@[k].data@ == data_of(
                        olds,
                        evs@[k].lba,
                    ) && evs@[k].data@.len() == 512 && !contains_block(
                        self.cache_entries(),
                        evs@[k].lba,
                    ) && (evs@[k].lba < sb || evs@[k].lba > eb),
                forall|k1: int, k2: int|
                    0 <= k1 < k2 < evs@.len() ==> (#[trigger] evs@[k1]).lba != (
                    #[trigger] evs@[k2]).lba,
            decreases num - i,
        {
            let b2: u32 = sb + (i as u32);
            let d = crate::util::copy_range(&w, i * 512, i * 512 + 512);
            proof {
                lemma_working_slice(
                    olds,
                    runs@,
                    resp,
                    cur as int,
                    n as int,
                    buf@,
                    sb as int,
                    eb as int,
                    b2 as int,
                );
                assert(d@ == written_block(olds, runs@, resp, cur as int, n as int, buf@, b2 as int));
            }
            let ghost pre = self.cache_entries();
            let ghost pre_evs = evs@;
            let evicted = self.cache.put(b2, d, false);
            match evicted {
                Some(ev) => {
                    proof {
                        assert(contains_block(pre, ev.block) && ev.block != b2);
                    }
                    if ev.dirty && (ev.block < sb || ev.block > eb) {
                        proof {
                            assert(!(sb <= ev.block < sb + i));
                            assert(entry_preserved(olds, pre, ev.block));
                            assert forall|k2: int| 0 <= k2 < evs@.len() implies (
                            #[trigger] evs@[k2]).lba != ev.block by {
                                assert(!contains_block(pre, evs@[k2].lba));
                            }
                        }
                        evs.push(BlockWrite { lba: ev.block, data: ev.data });
                    }
                },
                None => {},
            }
            proof {
                let news = self.cache_entries();
                assert forall|b3: u32| #[trigger] contains_block(news, b3) implies (sb <= b3 < sb
                    + (i + 1) && !dirty_of(news, b3) && data_of(news, b3) == written_block(
                    olds,
                    runs@,
                    resp,
                    cur as int,
                    n as int,
                    buf@,
                    b3 as int,
                )) || (!(sb <= b3 < sb + (i + 1)) && entry_preserved(olds, news, b3)) by {
                    if b3 == b2 {
                    } else {
                        assert(contains_block(pre, b3));
                        assert(data_of(news, b3) == data_of(pre, b3));
                        assert(dirty_of(news, b3) == dirty_of(pre, b3));
                    }
                }
                assert forall|b3: u32| #[trigger] contains_block(olds, b3) && dirty_of(olds, b3)
                    && (b3 < sb || b3 > eb) implies contains_block(news, b3) || write_back_has(
                    evs@,
                    b3,
                    data_of(olds, b3),
                ) by {
                    assert(b3 != b2);
                    if contains_block(pre, b3) {
                        if evicted is Some && evicted->Some_0.block == b3 {
                            let ev = evicted->Some_0;
                            assert(entry_preserved(olds, pre, b3));
                            assert(ev.dirty);
                            assert(evs@[evs@.len() - 1].lba == b3);
                            assert(evs@[evs@.len() - 1].data@ == data_of(olds, b3));
                        } else {
                            assert(contains_block(news, b3));
                        }
                    } else {
                        assert(write_back_has(pre_evs, b3, data_of(olds, b3)));
                        let k2 = choose|k2: int|
                            0 <= k2 < pre_evs.len() && #[trigger] pre_evs[k2].lba == b3
                                && pre_evs[k2].data@ == data_of(olds, b3);
                        assert(evs@[k2] == pre_evs[k2]);
                    }
                }
                assert forall|k2: int| 0 <= k2 < evs@.len() implies contains_block(
                    olds,
                    (#[trigger] evs@[k2]).lba,
                ) && dirty_of(olds, evs@[k2].lba) && evs@[k2].data@ == data_of(
                    olds,
                    evs@[k2].lba,
                ) && evs@[k2].data@.len() == 512 && !contains_block(news, evs@[k2].lba)
                    && (evs@[k2].lba < sb || evs@[k2].lba > eb) by {
                    if k2 < pre_evs.len() {
                        assert(evs@[k2] == pre_evs[k2]);
                        assert(evs@[k2].lba != b2);
                    } else {
                        let ev = evicted->Some_0;
                        assert(evs@[k2].lba == ev.block);
                        assert(entry_preserved(olds, pre, ev.block));
                        assert(!contains_block(news, ev.block));
                    }
                }
                assert forall|b3: u32| #[trigger] contains_block(news, b3) implies b3 == b2
                    || contains_block(pre, b3) by {}
                lemma_bounded_put(pre, news, self.properties.total_number_of_blocks, b2);
            }
            i = i + 1;
        }
        let main = BlockWrite { lba: sb, data: w };
        self.cursor = cur + n;
        proof {
            assert forall|b3: u32| #[trigger] contains_block(self.cache_entries(), b3)
                implies write_updated(
                olds,
                self.cache_entries(),
                runs@,
                resp,
                cur as int,
                n as int,
                buf@,
                sb as int,
                eb as int,
                b3,
            ) || ((b3 < sb || b3 > eb) && entry_preserved(olds, self.cache_entries(), b3)) by {
                if sb <= b3 < sb as int + num {
                    assert(write_updated(
                        olds,
                        self.cache_entries(),
                        runs@,
                        resp,
                        cur as int,
                        n as int,
                        buf@,
                        sb as int,
                        eb as int,
                        b3,
                    ));
                }
            }
        }
        (nn, Some(main), evs)
    }

    /// Takes every dirty block out of the cache as a WRITE(10) list, in
    /// recency order, and leaves the cache empty. The caller must issue the
    /// writes; until then the returned list is the only copy of the data.
    pub fn flush_take(&mut self) -> (ws: Vec<BlockWrite>)
        requires
            old(self).wf(),
        ensures
            final(self).wf(),
            final(self).spec_properties() == old(self).spec_properties(),
            final(self).spec_cursor() == old(self).spec_cursor(),
            final(self).cache_entries().len() == 0,
            final(self).spec_cache().spec_capacity() == old(self).spec_cache().spec_capacity(),
            forall|b: u32|
                #[trigger] contains_block(old(self).cache_entries(), b) && dirty_of(
                    old(self).cache_entries(),
                    b,
                ) ==> write_back_has(ws@, b, data_of(old(self).cache_entries(), b)),
            forall|k: int|
                0 <= k < ws@.len() ==> contains_block(
                    old(self).cache_entries(),
                    (#[trigger] ws@[k]).lba,
                ) && dirty_of(old(self).cache_entries(), ws@[k].lba) && ws@[k].data@ == data_of(
                    old(self).cache_entries(),
                    ws@[k].lba,
                ) && ws@[k].data@.len() == 512 && ws@[k].lba < old(
                    self,
                ).spec_properties().total_number_of_blocks,
            forall|k1: int, k2: int|
                0 <= k1 < k2 < ws@.len() ==> (#[trigger] ws@[k1]).lba != (#[trigger] ws@[k2]).lba,
            ws@.len() == dirty_entries(old(self).cache_entries()).len(),
            forall|k: int|
                0 <= k < ws@.len() ==> (#[trigger] ws@[k]).lba == dirty_entries(
                    old(self).cache_entries(),
                )[k].block && ws@[k].data@ == dirty_entries(old(self).cache_entries())[k].data@,
    {
        let ghost s = self.cache.entries();
        let entries = self.cache.take_all();
        let mut ws: Vec<BlockWrite> = Vec::new();
        let ghost mut src: Seq<int> = Seq::empty();
        let mut i: usize = 0;
        let n = entries.len();
        while i < n
            invariant
                n == entries@.len(),
                entries@ == s,
                i <= n,
                blocks_distinct(s),
                entries_wf(s),
                blocks_bounded(s, old(self).spec_properties().total_number_of_blocks),
                src.len() == ws@.len(),
                forall|k: int| 0 <= k < ws@.len() ==> 0 <= #[trigger] src[k] < i,
                forall|k: int|
                    0 <= k < ws@.len() ==> (#[trigger] ws@[k]).lba == s[src[k]].block && s[
                        src[k]
                    ].dirty && ws@[k].data@ == s[src[k]].data@,
                forall|k1: int, k2: int|
                    0 <= k1 < k2 < ws@.len() ==> #[trigger] src[k1] < #[trigger] src[k2],
                forall|j: int|
                    0 <= j < i && (#[trigger] s[j]).dirty ==> write_back_has(
                        ws@,
                        s[j].block,
                        s[j].data@,
                    ),
                ws@.len() == dirty_entries(s.subrange(0, i as int)).len(),
                forall|k: int|
                    0 <= k < ws@.len() ==> (#[trigger] ws@[k]).lba == dirty_entries(
                        s.subrange(0, i as int),
                    )[k].block && ws@[k].data@ == dirty_entries(s.subrange(0, i as int))[k].data@,
            decreases n - i,
        {
            proof {
                assert(s.subrange(0, i + 1).drop_last() =~= s.subrange(0, i as int));
                assert(s.subrange(0, i + 1).last() == s[i as int]);
            }
            let e = &entries[i];
            if e.dirty {
                let d = crate::util::copy_bytes(&e.data);
                let w = BlockWrite { lba: e.block, data: d };
                let ghost prev = ws@;
                ws.push(w);
                proof {
                    src = src.push(i as int);
                    assert(ws@[prev.len() as int].lba == s[i as int].block);
                    assert(ws@[prev.len() as int].data@ == s[i as int].data@);
                    assert(forall|k: int| 0 <= k < prev.len() ==> ws@[k] == prev[k]);
                    assert forall|j: int| 0 <= j < i + 1 && (#[trigger] s[j]).dirty
                        implies write_back_has(ws@, s[j].block, s[j].data@) by {
                        if j < i {
                            assert(write_back_has(prev, s[j].block, s[j].data@));
                            let k = choose|k: int|
                                0 <= k < prev.len() && #[trigger] prev[k].lba == s[j].block
                                    && prev[k].data@ == s[j].data@;
                            assert(ws@[k].lba == s[j].block && ws@[k].data@ == s[j].data@);
                        } else {
                            assert(ws@[prev.len() as int].lba == s[j].block && ws@[
                                prev.len() as int
                            ].data@ == s[j].data@);
                        }
                    }
                }
            }
            i = i + 1;
        }
        proof {
            assert forall|b: u32|
                #[trigger] contains_block(s, b) && dirty_of(s, b) implies write_back_has(
                ws@,
                b,
                data_of(s, b),
            ) by {
                let j = crate::cache::index_of_block(s, b);
                assert(0 <= j < s.len() && s[j].block == b);
                crate::cache::lemma_block_at(s, j);
            }
            assert forall|k: int| 0 <= k < ws@.len() implies contains_block(
                s,
                (#[trigger] ws@[k]).lba,
            ) && dirty_of(s, ws@[k].lba) && ws@[k].data@ == data_of(s, ws@[k].lba)
                && ws@[k].data@.len() == 512 && ws@[k].lba < old(
                self,
            ).spec_properties().total_number_of_blocks by {
                let j = src[k];
                crate::cache::lemma_block_at(s, j);
            }
            assert forall|k1: int, k2: int| 0 <= k1 < k2 < ws@.len() implies (
            #[trigger] ws@[k1]).lba != (#[trigger] ws@[k2]).lba by {
                assert(s[src[k1]].block != s[src[k2]].block);
            }
            assert(s.subrange(0, n as int) =~= s);
        }
        ws
    }
}

} // verus!
