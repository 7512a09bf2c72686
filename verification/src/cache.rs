//! A least-recently-used cache of fixed-size device blocks.
//!
//! The cache holds at most `capacity` entries, each a whole 512-byte block
//! with a dirty mark. Recency is the order of the entry sequence: the last
//! entry is the most recently used, and an insertion into a full cache
//! evicts the first. No two entries ever share a block number.

use vstd::prelude::*;

use crate::util::copy_bytes;

verus! {

/// The size of a cached block in bytes.
pub const BLOCK_SIZE: usize = 512;

/// One cached block: its number, its 512 bytes, and whether those bytes
/// are newer than the device's copy.
pub struct CacheEntry {
    /// The block number this entry caches.
    pub block: u32,
    /// The block's bytes; always exactly 512 of them.
    pub data: Vec<u8>,
    /// Whether the cached bytes must be written back before being dropped.
    pub dirty: bool,
}

impl CacheEntry {
    /// An entry holds exactly one block of bytes.
    pub open spec fn wf(&self) -> bool {
        self.data@.len() == BLOCK_SIZE
    }

    /// Builds an entry from a block number, its bytes and a dirty mark.
    pub fn new(block: u32, data: Vec<u8>, dirty: bool) -> (r: CacheEntry)
        ensures
            r.block == block,
            r.data@ == data@,
            r.dirty == dirty,
    {
        CacheEntry { block, data, dirty }
    }

    /// Builds an entry by copying one block out of `data` at `at`.
    pub fn from_vec(block: u32, data: &Vec<u8>, at: usize, dirty: bool) -> (r: CacheEntry)
        requires
            at + BLOCK_SIZE <= data@.len(),
        ensures
            r.block == block,
            r.data@ == data@.subrange(at as int, at + BLOCK_SIZE),
            r.dirty == dirty,
            r.wf(),
    {
        proof {
            assert(data@.len() <= usize::MAX) by {
                assert(data.len() == data@.len());
            }
        }
        let d = crate::util::copy_range(data, at, at + BLOCK_SIZE);
        CacheEntry { block, data: d, dirty }
    }
}

/// Whether some entry caches block `b`.
pub open spec fn contains_block(s: Seq<CacheEntry>, b: u32) -> bool {
    exists|i: int| 0 <= i < s.len() && #[trigger] s[i].block == b
}

/// The position of the entry caching block `b`.
pub open spec fn index_of_block(s: Seq<CacheEntry>, b: u32) -> int {
    choose|i: int| 0 <= i < s.len() && #[trigger] s[i].block == b
}

/// The cached bytes of block `b`.
pub open spec fn data_of(s: Seq<CacheEntry>, b: u32) -> Seq<u8> {
    s[index_of_block(s, b)].data@
}

/// The dirty mark of block `b`.
pub open spec fn dirty_of(s: Seq<CacheEntry>, b: u32) -> bool {
    s[index_of_block(s, b)].dirty
}

/// No two entries cache the same block.
pub open spec fn blocks_distinct(s: Seq<CacheEntry>) -> bool {
    forall|i: int, j: int|
        0 <= i < j < s.len() ==> #[trigger] s[i].block != #[trigger] s[j].block
}

/// Every entry holds exactly one block of bytes.
pub open spec fn entries_wf(s: Seq<CacheEntry>) -> bool {
    forall|i: int| 0 <= i < s.len() ==> (#[trigger] s[i]).data@.len() == BLOCK_SIZE
}

/// In a cache without duplicate blocks, the entry at position `i` is the
/// one `index_of_block` finds for its block number.
pub proof fn lemma_block_at(s: Seq<CacheEntry>, i: int)
    requires
        blocks_distinct(s),
        0 <= i < s.len(),
    ensures
        contains_block(s, s[i].block),
        index_of_block(s, s[i].block) == i,
        data_of(s, s[i].block) == s[i].data@,
        dirty_of(s, s[i].block) == s[i].dirty,
{
    assert(contains_block(s, s[i].block));
    let j = index_of_block(s, s[i].block);
    if j != i {
        assert(s[i].block != s[j].block);
    }
}

/// Removing the entry at `i` and pushing a replacement for the same block
/// keeps the cache's blocks distinct and leaves every other block's data
/// and dirty mark unchanged.
proof fn lemma_remove_push(s: Seq<CacheEntry>, i: int, e: CacheEntry, t: Seq<CacheEntry>)
    requires
        blocks_distinct(s),
        entries_wf(s),
        0 <= i < s.len(),
        e.block == s[i].block,
        e.data@.len() == BLOCK_SIZE,
        t == s.remove(i).push(e),
    ensures
        t.len() == s.len(),
        blocks_distinct(t),
        entries_wf(t),
        contains_block(t, e.block),
        data_of(t, e.block) == e.data@,
        dirty_of(t, e.block) == e.dirty,
        forall|b2: u32|
            b2 != e.block ==> #[trigger] contains_block(t, b2) == contains_block(s, b2),
        forall|b2: u32|
            b2 != e.block && contains_block(s, b2) ==> #[trigger] data_of(t, b2) == data_of(s, b2),
        forall|b2: u32|
            b2 != e.block && contains_block(s, b2) ==> #[trigger] dirty_of(t, b2) == dirty_of(
                s,
                b2,
            ),
{
    let n = s.len() as int;
    assert(forall|k: int| 0 <= k < i ==> t[k] == s[k]);
    assert(forall|k: int| i <= k < n - 1 ==> t[k] == s[k + 1]);
    assert(t[n - 1] == e);
    assert(entries_wf(t)) by {
        assert forall|k: int| 0 <= k < t.len() implies (#[trigger] t[k]).data@.len()
            == BLOCK_SIZE by {
            if k < i {
                assert(t[k] == s[k]);
            } else if k < n - 1 {
                assert(t[k] == s[k + 1]);
            } else {
                assert(t[k] == e);
            }
        }
    }
    assert(blocks_distinct(t)) by {
        assert forall|k1: int, k2: int| 0 <= k1 < k2 < t.len() implies t[k1].block
            != t[k2].block by {
            let m1 = if k1 < i {
                k1
            } else {
                k1 + 1
            };
            if k2 < n - 1 {
                let m2 = if k2 < i {
                    k2
                } else {
                    k2 + 1
                };
                assert(t[k1] == s[m1] && t[k2] == s[m2]);
            } else {
                assert(t[k2] == e);
                assert(t[k1] == s[m1] && m1 != i);
            }
        }
    }
    assert(contains_block(t, e.block)) by {
        assert(t[n - 1].block == e.block);
    }
    lemma_block_at(t, n - 1);
    assert forall|b2: u32| b2 != e.block implies #[trigger] contains_block(t, b2)
        == contains_block(s, b2) by {
        if contains_block(t, b2) {
            let k = choose|k: int| 0 <= k < t.len() && #[trigger] t[k].block == b2;
            let m = if k < i {
                k
            } else {
                k + 1
            };
            assert(k < n - 1 && t[k] == s[m]);
            assert(s[m].block == b2);
        }
        if contains_block(s, b2) {
            let m = choose|m: int| 0 <= m < s.len() && #[trigger] s[m].block == b2;
            assert(m != i);
            let k = if m < i {
                m
            } else {
                m - 1
            };
            assert(t[k] == s[m]);
            assert(t[k].block == b2);
        }
    }
    assert forall|b2: u32| b2 != e.block && contains_block(s, b2) implies #[trigger] data_of(
        t,
        b2,
    ) == data_of(s, b2) by {
        let m = index_of_block(s, b2);
        assert(0 <= m < s.len() && s[m].block == b2);
        assert(m != i);
        let k = if m < i {
            m
        } else {
            m - 1
        };
        assert(t[k] == s[m]);
        lemma_block_at(s, m);
        lemma_block_at(t, k);
    }
    assert forall|b2: u32| b2 != e.block && contains_block(s, b2) implies #[trigger] dirty_of(
        t,
        b2,
    ) == dirty_of(s, b2) by {
        let m = index_of_block(s, b2);
        assert(0 <= m < s.len() && s[m].block == b2);
        assert(m != i);
        let k = if m < i {
            m
        } else {
            m - 1
        };
        assert(t[k] == s[m]);
        lemma_block_at(s, m);
        lemma_block_at(t, k);
    }
}

/// Pushing an entry for a block the cache does not hold keeps the blocks
/// distinct and leaves every other block unchanged.
proof fn lemma_push_new(s: Seq<CacheEntry>, e: CacheEntry, t: Seq<CacheEntry>)
    requires
        blocks_distinct(s),
        entries_wf(s),
        !contains_block(s, e.block),
        e.data@.len() == BLOCK_SIZE,
        t == s.push(e),
    ensures
        t.len() == s.len() + 1,
        blocks_distinct(t),
        entries_wf(t),
        contains_block(t, e.block),
        data_of(t, e.block) == e.data@,
        dirty_of(t, e.block) == e.dirty,
        forall|b2: u32|
            b2 != e.block ==> #[trigger] contains_block(t, b2) == contains_block(s, b2),
        forall|b2: u32|
            b2 != e.block && contains_block(s, b2) ==> #[trigger] data_of(t, b2) == data_of(s, b2),
        forall|b2: u32|
            b2 != e.block && contains_block(s, b2) ==> #[trigger] dirty_of(t, b2) == dirty_of(
                s,
                b2,
            ),
{
    let n = s.len() as int;
    assert(forall|k: int| 0 <= k < n ==> t[k] == s[k]);
    assert(t[n] == e);
    assert(entries_wf(t)) by {
        assert forall|k: int| 0 <= k < t.len() implies (#[trigger] t[k]).data@.len()
            == BLOCK_SIZE by {
            if k < n {
                assert(t[k] == s[k]);
            } else {
                assert(t[k] == e);
            }
        }
    }
    assert(blocks_distinct(t)) by {
        assert forall|k1: int, k2: int| 0 <= k1 < k2 < t.len() implies t[k1].block
            != t[k2].block by {
            if k2 == n {
                assert(t[k1] == s[k1]);
                if t[k1].block == e.block {
                    assert(contains_block(s, e.block));
                }
            }
        }
    }
    assert(t[n].block == e.block);
    lemma_block_at(t, n);
    assert forall|b2: u32| b2 != e.block implies #[trigger] contains_block(t, b2)
        == contains_block(s, b2) by {
        if contains_block(t, b2) {
            let k = choose|k: int| 0 <= k < t.len() && #[trigger] t[k].block == b2;
            assert(k < n);
            assert(s[k].block == b2);
        }
        if contains_block(s, b2) {
            let m = choose|m: int| 0 <= m < s.len() && #[trigger] s[m].block == b2;
            assert(t[m].block == b2);
        }
    }
    assert forall|b2: u32| b2 != e.block && contains_block(s, b2) implies #[trigger] data_of(
        t,
        b2,
    ) == data_of(s, b2) by {
        let m = index_of_block(s, b2);
        assert(0 <= m < s.len() && s[m].block == b2);
        assert(t[m] == s[m]);
        lemma_block_at(s, m);
        lemma_block_at(t, m);
    }
    assert forall|b2: u32| b2 != e.block && contains_block(s, b2) implies #[trigger] dirty_of(
        t,
        b2,
    ) == dirty_of(s, b2) by {
        let m = index_of_block(s, b2);
        assert(0 <= m < s.len() && s[m].block == b2);
        assert(t[m] == s[m]);
        lemma_block_at(s, m);
        lemma_block_at(t, m);
    }
}

/// Dropping the first entry keeps the blocks distinct; the dropped block is
/// gone and every other block is unchanged.
proof fn lemma_drop_front(s: Seq<CacheEntry>, t: Seq<CacheEntry>)
    requires
        blocks_distinct(s),
        entries_wf(s),
        s.len() >= 1,
        t == s.remove(0),
    ensures
        t.len() == s.len() - 1,
        blocks_distinct(t),
        entries_wf(t),
        !contains_block(t, s[0].block),
        forall|b2: u32|
            b2 != s[0].block ==> #[trigger] contains_block(t, b2) == contains_block(s, b2),
        forall|b2: u32|
            b2 != s[0].block && contains_block(s, b2) ==> #[trigger] data_of(t, b2) == data_of(
                s,
                b2,
            ) && #[trigger] dirty_of(t, b2) == dirty_of(s, b2),
{
    let n = s.len() as int;
    assert(forall|k: int| 0 <= k < n - 1 ==> t[k] == s[k + 1]);
    assert(blocks_distinct(t)) by {
        assert forall|k1: int, k2: int| 0 <= k1 < k2 < t.len() implies t[k1].block
            != t[k2].block by {
            assert(t[k1] == s[k1 + 1] && t[k2] == s[k2 + 1]);
        }
    }
    assert(entries_wf(t)) by {
        assert forall|k: int| 0 <= k < t.len() implies (#[trigger] t[k]).data@.len()
            == BLOCK_SIZE by {
            assert(t[k] == s[k + 1]);
        }
    }
    if contains_block(t, s[0].block) {
        let k = choose|k: int| 0 <= k < t.len() && #[trigger] t[k].block == s[0].block;
        assert(s[k + 1].block == s[0].block);
    }
    assert forall|b2: u32| b2 != s[0].block implies #[trigger] contains_block(t, b2)
        == contains_block(s, b2) by {
        if contains_block(t, b2) {
            let k = choose|k: int| 0 <= k < t.len() && #[trigger] t[k].block == b2;
            assert(s[k + 1].block == b2);
        }
        if contains_block(s, b2) {
            let m = choose|m: int| 0 <= m < s.len() && #[trigger] s[m].block == b2;
            assert(m != 0);
            assert(t[m - 1].block == b2);
        }
    }
    assert forall|b2: u32| b2 != s[0].block && contains_block(s, b2) implies #[trigger] data_of(
        t,
        b2,
    ) == data_of(s, b2) by {
        let m = index_of_block(s, b2);
        assert(0 <= m < s.len() && s[m].block == b2);
        assert(m != 0);
        assert(t[m - 1] == s[m]);
        lemma_block_at(s, m);
        lemma_block_at(t, m - 1);
    }
    assert forall|b2: u32| b2 != s[0].block && contains_block(s, b2) implies #[trigger] dirty_of(
        t,
        b2,
    ) == dirty_of(s, b2) by {
        let m = index_of_block(s, b2);
        assert(0 <= m < s.len() && s[m].block == b2);
        assert(m != 0);
        assert(t[m - 1] == s[m]);
        lemma_block_at(s, m);
        lemma_block_at(t, m - 1);
    }
}

/// A bounded cache of blocks with least-recently-used eviction.
pub struct LruCache {
    entries: Vec<CacheEntry>,
    capacity: usize,
}

impl LruCache {
    /// The cached entries in recency order: least recently used first.
    pub closed spec fn entries(&self) -> Seq<CacheEntry> {
        self.entries@
    }

    /// The most entries the cache will hold.
    pub closed spec fn spec_capacity(&self) -> int {
        self.capacity as int
    }

    /// A cache is well-formed when it is within capacity, every entry
    /// holds one block, and no two entries share a block number.
    pub open spec fn wf(&self) -> bool {
        &&& self.spec_capacity() >= 1
        &&& self.entries().len() <= self.spec_capacity()
        &&& entries_wf(self.entries())
        &&& blocks_distinct(self.entries())
    }

    /// Creates an empty cache that will hold at most `capacity` blocks.
    pub fn new(capacity: usize) -> (r: LruCache)
        requires
            capacity >= 1,
        ensures
            r.wf(),
            r.entries().len() == 0,
            r.spec_capacity() == capacity,
    {
        LruCache { entries: Vec::new(), capacity }
    }

    /// How many blocks the cache holds now.
    pub fn len(&self) -> (r: usize)
        ensures
            r == self.entries().len(),
    {
        self.entries.len()
    }

    /// The most entries the cache will hold.
    pub fn capacity(&self) -> (r: usize)
        ensures
            r == self.spec_capacity(),
    {
        self.capacity
    }

    /// The position of the entry caching `block`, if any; recency is
    /// not touched.
    fn find_index(&self, block: u32) -> (r: Option<usize>)
        requires
            blocks_distinct(self.entries()),
        ensures
            r is Some <==> contains_block(self.entries(), block),
            r is Some ==> {
                let i = r->Some_0;
                &&& 0 <= i < self.entries().len()
                &&& self.entries()[i as int].block == block
                &&& i == index_of_block(self.entries(), block)
            },
    {
        let n = self.entries.len();
        let mut i: usize = 0;
        while i < n
            invariant
                i <= n == self.entries().len(),
                blocks_distinct(self.entries()),
                forall|j: int| 0 <= j < i ==> self.entries()[j].block != block,
            decreases n - i,
        {
            if self.entries[i].block == block {
                proof {
                    lemma_block_at(self.entries(), i as int);
                }
                return Some(i);
            }
            i = i + 1;
        }
        proof {
            if contains_block(self.entries(), block) {
                let j = choose|j: int|
                    0 <= j < self.entries().len() && #[trigger] self.entries()[j].block == block;
                assert(self.entries()[j].block != block);
            }
        }
        None
    }

    /// Whether the cache holds `block`; recency is not touched.
    pub fn contains(&self, block: u32) -> (r: bool)
        requires
            self.wf(),
        ensures
            r == contains_block(self.entries(), block),
    {
        self.find_index(block).is_some()
    }

    /// A copy of the cached bytes of `block`, if present; a hit makes the
    /// entry the most recently used. What each block caches is unchanged.
    pub fn get_copy(&mut self, block: u32) -> (r: Option<Vec<u8>>)
        requires
            old(self).wf(),
        ensures
            final(self).wf(),
            final(self).spec_capacity() == old(self).spec_capacity(),
            final(self).entries().len() == old(self).entries().len(),
            r is Some <==> contains_block(old(self).entries(), block),
            r is Some ==> r->Some_0@ == data_of(old(self).entries(), block)
                && r->Some_0@.len() == BLOCK_SIZE,
            r is Some ==> final(self).entries() == old(self).entries().remove(
                index_of_block(old(self).entries(), block),
            ).push(old(self).entries()[index_of_block(old(self).entries(), block)]),
            r is None ==> final(self).entries() == old(self).entries(),
            forall|b2: u32| #[trigger]
                contains_block(final(self).entries(), b2) == contains_block(
                    old(self).entries(),
                    b2,
                ),
            forall|b2: u32|
                contains_block(old(self).entries(), b2) ==> #[trigger] data_of(
                    final(self).entries(),
                    b2,
                ) == data_of(old(self).entries(), b2),
            forall|b2: u32|
                contains_block(old(self).entries(), b2) ==> #[trigger] dirty_of(
                    final(self).entries(),
                    b2,
                ) == dirty_of(old(self).entries(), b2),
    {
        match self.find_index(block) {
            Some(i) => {
                let ghost s = self.entries();
                let e = self.entries.remove(i);
                let d = copy_bytes(&e.data);
                self.entries.push(e);
                proof {
                    lemma_block_at(s, i as int);
                    lemma_remove_push(s, i as int, s[i as int], self.entries());
                }
                Some(d)
            },
            None => None,
        }
    }

    /// Caches `block` with the given bytes and dirty mark, as the most
    /// recently used entry. When the block was absent and the cache full,
    /// the least recently used entry is evicted and returned; the caller
    /// must write it back first if it is dirty.
    pub fn put(&mut self, block: u32, data: Vec<u8>, dirty: bool) -> (evicted: Option<CacheEntry>)
        requires
            old(self).wf(),
            data@.len() == BLOCK_SIZE,
        ensures
            final(self).wf(),
            final(self).spec_capacity() == old(self).spec_capacity(),
            contains_block(final(self).entries(), block),
            data_of(final(self).entries(), block) == data@,
            dirty_of(final(self).entries(), block) == dirty,
            (evicted is Some) <==> (!contains_block(old(self).entries(), block) && old(
                self,
            ).entries().len() == old(self).spec_capacity()),
            evicted is Some ==> {
                let e = evicted->Some_0;
                &&& contains_block(old(self).entries(), e.block)
                &&& e.block != block
                &&& e.data@ == data_of(old(self).entries(), e.block)
                &&& e.dirty == dirty_of(old(self).entries(), e.block)
                &&& e.data@.len() == BLOCK_SIZE
                &&& !contains_block(final(self).entries(), e.block)
            },
            evicted is None ==> forall|b2: u32|
                b2 != block ==> #[trigger] contains_block(final(self).entries(), b2)
                    == contains_block(old(self).entries(), b2),
            evicted is Some ==> forall|b2: u32|
                b2 != block && b2 != evicted->Some_0.block ==> #[trigger] contains_block(
                    final(self).entries(),
                    b2,
                ) == contains_block(old(self).entries(), b2),
            forall|b2: u32|
                b2 != block && contains_block(final(self).entries(), b2) && contains_block(
                    old(self).entries(),
                    b2,
                ) ==> #[trigger] data_of(final(self).entries(), b2) == data_of(
                    old(self).entries(),
                    b2,
                ),
            forall|b2: u32|
                b2 != block && contains_block(final(self).entries(), b2) && contains_block(
                    old(self).entries(),
                    b2,
                ) ==> #[trigger] dirty_of(final(self).entries(), b2) == dirty_of(
                    old(self).entries(),
                    b2,
                ),
            final(self).entries().len() == if contains_block(old(self).entries(), block) || evicted
                is Some {
                old(self).entries().len()
            } else {
                old(self).entries().len() + 1
            },
            contains_block(old(self).entries(), block) ==> final(self).entries() == old(
                self,
            ).entries().remove(index_of_block(old(self).entries(), block)).push(
                CacheEntry { block, data, dirty },
            ),
            !contains_block(old(self).entries(), block) && evicted is None
                ==> final(self).entries() == old(self).entries().push(
                CacheEntry { block, data, dirty },
            ),
            evicted is Some ==> evicted == Some(old(self).entries()[0]) && final(self).entries()
                == old(self).entries().remove(0).push(CacheEntry { block, data, dirty }),
    {
        match self.find_index(block) {
            Some(i) => {
                let ghost s = self.entries();
                let mut e = self.entries.remove(i);
                e.data = data;
                e.dirty = dirty;
                let ghost ge = e;
                self.entries.push(e);
                proof {
                    lemma_block_at(s, i as int);
                    lemma_remove_push(s, i as int, ge, self.entries());
                }
                None
            },
            None => {
                let ghost s = self.entries();
                let evicted = if self.entries.len() >= self.capacity {
                    let removed = self.entries.remove(0);
                    proof {
                        lemma_block_at(s, 0);
                        lemma_drop_front(s, self.entries());
                        assert(s[0].block != block);
                    }
                    Some(removed)
                } else {
                    None
                };
                let ghost s1 = self.entries();
                let e = CacheEntry { block, data, dirty };
                let ghost ge = e;
                self.entries.push(e);
                proof {
                    assert(!contains_block(s1, block)) by {
                        if contains_block(s1, block) {
                            if evicted is Some {
                                assert(contains_block(s, block));
                            } else {
                                assert(contains_block(s, block));
                            }
                        }
                    }
                    lemma_push_new(s1, ge, self.entries());
                }
                evicted
            },
        }
    }

    /// Hands every entry out in recency order and leaves the cache empty.
    pub fn take_all(&mut self) -> (r: Vec<CacheEntry>)
        requires
            old(self).wf(),
        ensures
            final(self).wf(),
            final(self).spec_capacity() == old(self).spec_capacity(),
            final(self).entries().len() == 0,
            r@ == old(self).entries(),
    {
        let mut r: Vec<CacheEntry> = Vec::new();
        core::mem::swap(&mut self.entries, &mut r);
        r
    }
}

} // verus!
