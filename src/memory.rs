//! A byte-budgeted keyed store of data blocks with optional time-to-live.
//!
//! Expiry is lazy: `get` refuses an expired block but leaves it stored and
//! counted; only `cleanup_expired` removes expired blocks and credits their
//! bytes. Times are nanoseconds on the wall clock since the Unix epoch.

use crate::clock::wall_clock_nanos;
use vstd::prelude::*;

verus! {

/// Failures reported by the memory store.
#[derive(Debug)]
pub enum MemoryError {
    LimitExceeded(String),
    KeyNotFound(String),
    InvalidOperation(String),
    SerializationError(String),
}

/// Aggregate byte accounting of a store.
#[derive(Clone, Copy, Debug)]
pub struct MemoryStats {
    pub total_allocated: usize,
    pub total_freed: usize,
    pub current_usage: usize,
    pub peak_usage: usize,
    pub allocation_count: u64,
}

/// A stored block: its bytes, when it was stored, its time-to-live (both in
/// nanoseconds) and free-form metadata.
#[derive(Debug)]
pub struct MemoryBlock {
    pub data: Vec<u8>,
    pub timestamp: u64,
    pub ttl: Option<u64>,
    pub metadata: Vec<(String, String)>,
}

/// The block has a time-to-live and, at `now`, has been stored for longer.
pub open spec fn expired(b: MemoryBlock, now: u64) -> bool {
    match b.ttl {
        Some(ttl) => b.timestamp <= now && now - b.timestamp > ttl,
        None => false,
    }
}

/// The block has a time-to-live but its age at `now` cannot be computed:
/// the clock reads earlier than the block's timestamp.
pub open spec fn age_unknown(b: MemoryBlock, now: u64) -> bool {
    b.ttl is Some && now < b.timestamp
}

/// Index `i` is the first entry of `s` under `key`.
pub open spec fn first_key<V>(s: Seq<(String, V)>, key: Seq<char>, i: int) -> bool {
    &&& 0 <= i < s.len()
    &&& s[i].0@ == key
    &&& forall|j: int| 0 <= j < i ==> (#[trigger] s[j]).0@ != key
}

/// No entry of `s` is under `key`.
pub open spec fn lacks_key<V>(s: Seq<(String, V)>, key: Seq<char>) -> bool {
    forall|j: int| 0 <= j < s.len() ==> (#[trigger] s[j]).0@ != key
}

/// `s` with `v` stored under `key`: it replaces the value of the first entry
/// under `key`, or is appended if there is none.
pub open spec fn upserted<V>(s: Seq<(String, V)>, key: String, v: V) -> Seq<(String, V)> {
    if lacks_key(s, key@) {
        s.push((key, v))
    } else {
        let i = choose|i: int| first_key(s, key@, i);
        s.update(i, (s[i].0, v))
    }
}

/// No two entries of `s` are under one key.
pub open spec fn keys_unique<V>(s: Seq<(String, V)>) -> bool {
    forall|a: int, b: int|
        0 <= a < b < s.len() ==> (#[trigger] s[a]).0@ != (#[trigger] s[b]).0@
}

/// The number of bytes of the block under `key` in `s`, zero if none.
pub open spec fn held_under(s: Seq<(String, MemoryBlock)>, key: Seq<char>) -> nat {
    if lacks_key(s, key) {
        0
    } else {
        s[choose|i: int| first_key(s, key, i)].1.data@.len()
    }
}

/// `r` is what a read of `key` in `s` at time `now` gives: the missing-key
/// error, the clock error, the expired-key error, or the stored bytes.
pub open spec fn read_outcome(
    s: Seq<(String, MemoryBlock)>,
    key: Seq<char>,
    now: u64,
    r: Result<Vec<u8>, MemoryError>,
) -> bool {
    if lacks_key(s, key) {
        (r matches Err(MemoryError::KeyNotFound(m)) && m@ == key)
    } else {
        let b = s[choose|i: int| first_key(s, key, i)].1;
        if age_unknown(b, now) {
            (r matches Err(MemoryError::InvalidOperation(_)))
        } else if expired(b, now) {
            (r matches Err(MemoryError::KeyNotFound(m)) && m@ == "Key expired"@)
        } else {
            (r matches Ok(v) && v@ == b.data@)
        }
    }
}

/// There is one first index under a key.
proof fn lemma_first_key_unique<V>(s: Seq<(String, V)>, key: Seq<char>, i: int, k: int)
    requires
        first_key(s, key, i),
        first_key(s, key, k),
    ensures
        i == k,
{
    if i < k {
        assert(s[i].0@ != key);
    } else if k < i {
        assert(s[k].0@ != key);
    }
}

/// The number of bytes that the blocks of `s` hold.
pub open spec fn bytes_held(s: Seq<(String, MemoryBlock)>) -> nat
    decreases s.len(),
{
    if s.len() == 0 {
        0
    } else {
        bytes_held(s.drop_last()) + s.last().1.data@.len()
    }
}

/// `s` without the blocks that are expired at `now`, the rest in order.
pub open spec fn swept(s: Seq<(String, MemoryBlock)>, now: u64) -> Seq<(String, MemoryBlock)> {
    s.filter(unexpired(now))
}

/// The entry's block is not expired at `now`.
pub open spec fn unexpired(now: u64) -> spec_fn((String, MemoryBlock)) -> bool {
    |e: (String, MemoryBlock)| !expired(e.1, now)
}

/// Statistics after a successful allocation of `size` bytes.
pub open spec fn after_allocation(st: MemoryStats, size: usize) -> MemoryStats {
    let cur = (st.current_usage + size) as usize;
    MemoryStats {
        total_allocated: st.total_allocated.saturating_add(size),
        total_freed: st.total_freed,
        current_usage: cur,
        peak_usage: if cur > st.peak_usage {
            cur
        } else {
            st.peak_usage
        },
        allocation_count: st.allocation_count.saturating_add(1),
    }
}

/// Statistics after `size` bytes were released.
pub open spec fn after_release(st: MemoryStats, size: usize) -> MemoryStats {
    MemoryStats {
        total_freed: st.total_freed.saturating_add(size),
        current_usage: (st.current_usage - size) as usize,
        ..st
    }
}

/// Statistics of a new store.
pub open spec fn zero_stats() -> MemoryStats {
    MemoryStats {
        total_allocated: 0,
        total_freed: 0,
        current_usage: 0,
        peak_usage: 0,
        allocation_count: 0,
    }
}

proof fn lemma_remove_keeps_unique<V>(s: Seq<(String, V)>, i: int)
    requires
        0 <= i < s.len(),
        keys_unique(s),
    ensures
        keys_unique(s.remove(i)),
{
    assert forall|a: int, b: int|
        0 <= a < b < s.remove(i).len() implies (#[trigger] s.remove(i)[a]).0@
            != (#[trigger] s.remove(i)[b]).0@ by {
        let a2 = if a < i { a } else { a + 1 };
        let b2 = if b < i { b } else { b + 1 };
        assert(s.remove(i)[a] == s[a2]);
        assert(s.remove(i)[b] == s[b2]);
    }
}

proof fn lemma_bytes_remove(s: Seq<(String, MemoryBlock)>, i: int)
    requires
        0 <= i < s.len(),
    ensures
        bytes_held(s) == bytes_held(s.remove(i)) + s[i].1.data@.len(),
    decreases s.len(),
{
    if i == s.len() - 1 {
        assert(s.remove(i) =~= s.drop_last());
    } else {
        assert(s.remove(i).drop_last() =~= s.drop_last().remove(i));
        lemma_bytes_remove(s.drop_last(), i);
    }
}

proof fn lemma_bytes_update(s: Seq<(String, MemoryBlock)>, i: int, e: (String, MemoryBlock))
    requires
        0 <= i < s.len(),
    ensures
        bytes_held(s.update(i, e)) + s[i].1.data@.len() == bytes_held(s) + e.1.data@.len(),
    decreases s.len(),
{
    if i == s.len() - 1 {
        assert(s.update(i, e).drop_last() =~= s.drop_last());
    } else {
        assert(s.update(i, e).drop_last() =~= s.drop_last().update(i, e));
        lemma_bytes_update(s.drop_last(), i, e);
    }
}

proof fn lemma_bytes_prefix(s: Seq<(String, MemoryBlock)>, k: int)
    requires
        0 <= k <= s.len(),
    ensures
        bytes_held(s.take(k)) <= bytes_held(s),
    decreases s.len(),
{
    if k == s.len() {
        assert(s.take(k) =~= s);
    } else {
        assert(s.drop_last().take(k) =~= s.take(k));
        lemma_bytes_prefix(s.drop_last(), k);
    }
}

/// Blocks by key, in order of first allocation, with their byte accounting.
pub struct MemoryManager {
    memory_limit: usize,
    storage: Vec<(String, MemoryBlock)>,
    stats: MemoryStats,
}

impl MemoryManager {
    /// The byte budget.
    pub closed spec fn limit(&self) -> nat {
        self.memory_limit as nat
    }

    /// The stored blocks with their keys.
    pub closed spec fn blocks(&self) -> Seq<(String, MemoryBlock)> {
        self.storage@
    }

    pub closed spec fn statistics(&self) -> MemoryStats {
        self.stats
    }

    /// Live usage is the number of stored bytes and stays within the
    /// budget; each key holds at most one block.
    pub closed spec fn wf(&self) -> bool {
        &&& self.stats.current_usage <= self.memory_limit
        &&& bytes_held(self.storage@) == self.stats.current_usage
        &&& keys_unique(self.storage@)
    }

    /// What a well-formed store guarantees its callers: the budget fits a
    /// `usize`, live usage is within it and equals the stored bytes, and
    /// keys are unique.
    pub proof fn lemma_wf_facts(&self)
        requires
            self.wf(),
        ensures
            self.limit() <= usize::MAX,
            self.statistics().current_usage <= self.limit(),
            bytes_held(self.blocks()) == self.statistics().current_usage,
            keys_unique(self.blocks()),
    {
    }

    pub fn new(memory_limit: usize) -> (r: MemoryManager)
        ensures
            r.wf(),
            r.limit() == memory_limit,
            r.blocks() == Seq::<(String, MemoryBlock)>::empty(),
            r.statistics() == zero_stats(),
    {
        MemoryManager {
            memory_limit,
            storage: Vec::new(),
            stats: MemoryStats {
                total_allocated: 0,
                total_freed: 0,
                current_usage: 0,
                peak_usage: 0,
                allocation_count: 0,
            },
        }
    }

    /// Stores `data` under `key` at time `now`. A block already under `key`
    /// is released first, as by `free`, and the two steps happen together or
    /// not at all: the call fails, changing nothing, if live usage without
    /// that block plus the new length would pass the budget.
    pub fn allocate_at(
        &mut self,
        key: String,
        data: Vec<u8>,
        ttl: Option<u64>,
        metadata: Vec<(String, String)>,
        now: u64,
    ) -> (r: Result<(), MemoryError>)
        requires
            old(self).wf(),
        ensures
            final(self).wf(),
            final(self).limit() == old(self).limit(),
            old(self).statistics().current_usage - held_under(old(self).blocks(), key@) + data@.len()
                > old(self).limit() ==> (r matches Err(MemoryError::LimitExceeded(_)))
                && final(self).blocks() == old(self).blocks() && final(self).statistics() == old(
                self).statistics(),
            old(self).statistics().current_usage - held_under(old(self).blocks(), key@) + data@.len()
                <= old(self).limit() ==> r is Ok && final(self).blocks() == upserted(
                old(self).blocks(),
                key,
                MemoryBlock { data, timestamp: now, ttl, metadata },
            ),
            r is Ok && lacks_key(old(self).blocks(), key@) ==> final(self).statistics()
                == after_allocation(old(self).statistics(), data@.len() as usize),
            r is Ok && !lacks_key(old(self).blocks(), key@) ==> final(self).statistics()
                == after_allocation(
                after_release(old(self).statistics(), held_under(old(self).blocks(), key@) as usize),
                data@.len() as usize,
            ),
    {
        let block_size = data.len();
        let ghost s0 = self.storage@;
        let found = position(&self.storage, &key);
        let prior: usize = match found {
            Some(i) => self.storage[i].1.data.len(),
            None => 0,
        };
        proof {
            if let Some(i) = found {
                lemma_bytes_remove(s0, i as int);
                let c = choose|c: int| first_key(s0, key@, c);
                lemma_first_key_unique(s0, key@, c, i as int);
            }
        }
        if block_size > self.memory_limit - (self.stats.current_usage - prior) {
            return Err(MemoryError::LimitExceeded("Memory limit exceeded".to_owned()));
        }
        let block = MemoryBlock { data, timestamp: now, ttl, metadata };
        self.stats.total_freed = self.stats.total_freed.saturating_add(prior);
        self.stats.current_usage = self.stats.current_usage - prior;
        self.stats.total_allocated = self.stats.total_allocated.saturating_add(block_size);
        self.stats.current_usage = self.stats.current_usage + block_size;
        self.stats.allocation_count = self.stats.allocation_count.saturating_add(1);
        if self.stats.current_usage > self.stats.peak_usage {
            self.stats.peak_usage = self.stats.current_usage;
        }
        let ghost b = block;
        match found {
            Some(i) => {
                let (k, _) = self.storage.remove(i);
                self.storage.insert(i, (k, block));
                proof {
                    assert(self.storage@ =~= s0.update(i as int, (s0[i as int].0, b)));
                    lemma_bytes_update(s0, i as int, (s0[i as int].0, b));
                    assert(!lacks_key(s0, key@));
                    assert(forall|x: int|
                        0 <= x < s0.len() ==> (#[trigger] self.storage@[x]).0 == s0[x].0);
                }
            },
            None => {
                self.storage.push((key, block));
                proof {
                    assert(self.storage@.drop_last() =~= s0);
                    assert forall|a: int, c: int|
                        0 <= a < c < self.storage@.len() implies (#[trigger] self.storage@[a]).0@
                            != (#[trigger] self.storage@[c]).0@ by {
                        assert(self.storage@[a] == s0[a]);
                        if c < s0.len() {
                            assert(self.storage@[c] == s0[c]);
                        }
                    }
                }
            },
        }
        Ok(())
    }

    /// The number of bytes of the block under `key`, zero if there is none.
    fn held_bytes(&self, key: &String) -> (r: usize)
        requires
            self.wf(),
        ensures
            r == held_under(self.blocks(), key@),
            r <= self.statistics().current_usage,
    {
        match position(&self.storage, key) {
            Some(i) => {
                proof {
                    lemma_bytes_remove(self.storage@, i as int);
                    let c = choose|c: int| first_key(self.storage@, key@, c);
                    lemma_first_key_unique(self.storage@, key@, c, i as int);
                }
                self.storage[i].1.data.len()
            },
            None => 0,
        }
    }

    /// Stores `data` under `key`, stamped with the current time; fails with
    /// `InvalidOperation`, changing nothing, if the wall clock reads before
    /// the Unix epoch.
    pub fn allocate(
        &mut self,
        key: String,
        data: Vec<u8>,
        ttl: Option<u64>,
        metadata: Vec<(String, String)>,
    ) -> (r: Result<(), MemoryError>)
        requires
            old(self).wf(),
        ensures
            final(self).wf(),
            final(self).limit() == old(self).limit(),
            r is Err ==> final(self).blocks() == old(self).blocks() && final(self).statistics()
                == old(self).statistics(),
            r is Err ==> (r matches Err(MemoryError::LimitExceeded(_))) || (r matches Err(
                MemoryError::InvalidOperation(_),
            )),
            old(self).statistics().current_usage - held_under(old(self).blocks(), key@) + data@.len()
                > old(self).limit() ==> (r matches Err(MemoryError::LimitExceeded(_))),
            (r matches Err(MemoryError::LimitExceeded(_))) ==> old(self).statistics().current_usage
                - held_under(old(self).blocks(), key@) + data@.len() > old(self).limit(),
            r is Ok ==> exists|now: u64|
                final(self).blocks() == upserted(
                    old(self).blocks(),
                    key,
                    MemoryBlock { data, timestamp: now, ttl, metadata },
                ),
            r is Ok && lacks_key(old(self).blocks(), key@) ==> final(self).statistics()
                == after_allocation(old(self).statistics(), data@.len() as usize),
            r is Ok && !lacks_key(old(self).blocks(), key@) ==> final(self).statistics()
                == after_allocation(
                after_release(old(self).statistics(), held_under(old(self).blocks(), key@) as usize),
                data@.len() as usize,
            ),
    {
        let prior = self.held_bytes(&key);
        if data.len() > self.memory_limit - (self.stats.current_usage - prior) {
            return Err(MemoryError::LimitExceeded("Memory limit exceeded".to_owned()));
        }
        match wall_clock_nanos() {
            Some(now) => self.allocate_at(key, data, ttl, metadata, now),
            None => Err(MemoryError::InvalidOperation("Clock reads before the Unix epoch".to_owned())),
        }
    }

    /// Removes the block under `key` and releases its bytes.
    pub fn free(&mut self, key: &str) -> (r: Result<(), MemoryError>)
        requires
            old(self).wf(),
        ensures
            final(self).wf(),
            final(self).limit() == old(self).limit(),
            forall|i: int|
                #[trigger] first_key(old(self).blocks(), key@, i) ==> r is Ok && final(self).blocks() == old(self).blocks().remove(i) && final(self).statistics() == after_release(
                    old(self).statistics(),
                    old(self).blocks()[i].1.data@.len() as usize,
                ),
            lacks_key(old(self).blocks(), key@) ==> (r matches Err(MemoryError::KeyNotFound(m))
                && m@ == key@) && final(self).blocks() == old(self).blocks() && final(self).statistics() == old(self).statistics(),
    {
        let k = key.to_owned();
        match position(&self.storage, &k) {
            Some(i) => {
                let ghost s0 = self.storage@;
                let (_, block) = self.storage.remove(i);
                proof {
                    lemma_bytes_remove(s0, i as int);
                    lemma_remove_keeps_unique(s0, i as int);
                }
                let size = block.data.len();
                self.stats.total_freed = self.stats.total_freed.saturating_add(size);
                self.stats.current_usage = self.stats.current_usage - size;
                Ok(())
            },
            None => Err(MemoryError::KeyNotFound(k)),
        }
    }

    /// The bytes under `key`, read at time `now`. A block whose time-to-live
    /// has passed is refused but left in place. A block is expired only once
    /// its age exceeds its time-to-live: at an age equal to it, it is still
    /// read.
    pub fn get_at(&self, key: &str, now: u64) -> (r: Result<Vec<u8>, MemoryError>)
        ensures
            read_outcome(self.blocks(), key@, now, r),
    {
        let k = key.to_owned();
        match position(&self.storage, &k) {
            Some(i) => {
                proof {
                    let c = choose|c: int| first_key(self.storage@, key@, c);
                    lemma_first_key_unique(self.storage@, key@, c, i as int);
                }
                let block = &self.storage[i].1;
                if let Some(ttl) = block.ttl {
                    if now < block.timestamp {
                        return Err(
                            MemoryError::InvalidOperation("Clock reads before the block".to_owned()),
                        );
                    }
                    if now - block.timestamp > ttl {
                        let m = "Key expired".to_owned();
                        proof {
                            reveal_strlit("Key expired");
                        }
                        return Err(MemoryError::KeyNotFound(m));
                    }
                }
                Ok(copy_bytes(&block.data))
            },
            None => Err(MemoryError::KeyNotFound(k)),
        }
    }

    /// The bytes under `key`, read at the current time.
    pub fn get(&self, key: &str) -> (r: Result<Vec<u8>, MemoryError>)
        ensures
            forall|i: int|
                first_key(self.blocks(), key@, i) && self.blocks()[i].1.ttl is None ==> (r matches Ok(
                    v,
                ) && v@ == self.blocks()[i].1.data@),
            lacks_key(self.blocks(), key@) ==> (r matches Err(MemoryError::KeyNotFound(m)) && m@
                == key@),
            (r matches Err(MemoryError::InvalidOperation(_))) || exists|now: u64|
                read_outcome(self.blocks(), key@, now, r),
    {
        let k = key.to_owned();
        match position(&self.storage, &k) {
            None => {
                let r = Err(MemoryError::KeyNotFound(k));
                assert(read_outcome(self.blocks(), key@, 0, r));
                r
            },
            Some(i) => {
                proof {
                    let c = choose|c: int| first_key(self.storage@, key@, c);
                    lemma_first_key_unique(self.storage@, key@, c, i as int);
                }
                if self.storage[i].1.ttl.is_none() {
                    let r = Ok(copy_bytes(&self.storage[i].1.data));
                    assert(read_outcome(self.blocks(), key@, 0, r));
                    assert forall|j: int|
                        first_key(self.blocks(), key@, j) implies j == i by {
                        lemma_first_key_unique(self.storage@, key@, j, i as int);
                    }
                    r
                } else {
                    match wall_clock_nanos() {
                        Some(now) => self.get_at(key, now),
                        None => Err(
                            MemoryError::InvalidOperation(
                                "Clock reads before the Unix epoch".to_owned(),
                            ),
                        ),
                    }
                }
            },
        }
    }

    /// Removes every block that is expired at `now` and releases its bytes;
    /// returns how many were removed. Blocks without a time-to-live, or
    /// whose age cannot be computed, stay.
    pub fn cleanup_expired_at(&mut self, now: u64) -> (r: Result<usize, MemoryError>)
        requires
            old(self).wf(),
        ensures
            final(self).wf(),
            final(self).limit() == old(self).limit(),
            final(self).blocks() == swept(old(self).blocks(), now),
            r matches Ok(n) && n == old(self).blocks().len() - final(self).blocks().len(),
            final(self).statistics() == after_release(
                old(self).statistics(),
                (bytes_held(old(self).blocks()) - bytes_held(final(self).blocks())) as usize,
            ),
    {
        let ghost s0 = self.storage@;
        let ghost keep = unexpired(now);
        let mut i: usize = 0;
        let ghost mut j: int = 0;
        let mut freed: usize = 0;
        let before_len = self.storage.len();
        while i < self.storage.len()
            invariant
                0 <= i <= j <= s0.len(),
                self.storage@.len() == i + (s0.len() - j),
                self.storage@.take(i as int) == s0.take(j).filter(keep),
                self.storage@.skip(i as int) == s0.skip(j),
                keep == unexpired(now),
                before_len == s0.len(),
                freed + bytes_held(self.storage@.take(i as int)) == bytes_held(s0.take(j)),
                self.stats == old(self).stats,
                self.memory_limit == old(self).memory_limit,
                s0 == old(self).storage@,
                old(self).wf(),
                keys_unique(self.storage@),
            decreases self.storage@.len() - i,
        {
            let ghost cur = self.storage@;
            proof {
                reveal(Seq::filter);
                assert(cur[i as int] == s0[j]) by {
                    assert(cur.skip(i as int)[0] == s0.skip(j)[0]);
                }
                assert(s0.take(j + 1).drop_last() =~= s0.take(j));
                assert(s0.take(j + 1).last() == s0[j]);
                assert(cur.skip(i as int + 1) =~= cur.skip(i as int).skip(1));
                assert(s0.skip(j + 1) =~= s0.skip(j).skip(1));
                lemma_bytes_prefix(s0, j + 1);
            }
            let stale = match self.storage[i].1.ttl {
                Some(ttl) => now >= self.storage[i].1.timestamp && now - self.storage[i].1.timestamp
                    > ttl,
                None => false,
            };
            if stale {
                let (_, block) = self.storage.remove(i);
                proof {
                    lemma_remove_keeps_unique(cur, i as int);
                    assert(self.storage@.take(i as int) =~= cur.take(i as int));
                    assert(self.storage@.skip(i as int) =~= cur.skip(i as int + 1));
                    assert(s0.take(j + 1).filter(keep) == s0.take(j).filter(keep));
                    j = j + 1;
                }
                freed = freed + block.data.len();
            } else {
                proof {
                    assert(self.storage@.take(i as int + 1) =~= cur.take(i as int).push(
                        cur[i as int],
                    ));
                    assert(self.storage@.take(i as int + 1).drop_last() =~= cur.take(i as int));
                    assert(self.storage@.skip(i as int + 1) =~= cur.skip(i as int + 1));
                    assert(s0.take(j + 1).filter(keep) == s0.take(j).filter(keep).push(s0[j]));
                    j = j + 1;
                }
                i = i + 1;
            }
        }
        proof {
            assert(s0.take(j) =~= s0);
            assert(self.storage@.take(i as int) =~= self.storage@);
        }
        self.stats.current_usage = self.stats.current_usage - freed;
        self.stats.total_freed = self.stats.total_freed.saturating_add(freed);
        Ok(before_len - self.storage.len())
    }

    /// Removes every block that is expired at the current time.
    pub fn cleanup_expired(&mut self) -> (r: Result<usize, MemoryError>)
        requires
            old(self).wf(),
        ensures
            final(self).wf(),
            final(self).limit() == old(self).limit(),
            final(self).blocks() == old(self).blocks() || exists|now: u64|
                final(self).blocks() == swept(old(self).blocks(), now),
            r matches Ok(n) && n == old(self).blocks().len() - final(self).blocks().len(),
            final(self).statistics() == after_release(
                old(self).statistics(),
                (bytes_held(old(self).blocks()) - bytes_held(final(self).blocks())) as usize,
            ),
    {
        match wall_clock_nanos() {
            Some(now) => self.cleanup_expired_at(now),
            None => Ok(0),
        }
    }

    /// Sets the metadata entry `metadata_key` of the block under `key`.
    pub fn add_metadata(&mut self, key: &str, metadata_key: String, metadata_value: String) -> (r:
        Result<(), MemoryError>)
        requires
            old(self).wf(),
        ensures
            final(self).wf(),
            final(self).limit() == old(self).limit(),
            final(self).statistics() == old(self).statistics(),
            forall|i: int|
                first_key(old(self).blocks(), key@, i) ==> r is Ok && final(self).blocks().len()
                    == old(self).blocks().len() && (forall|j: int|
                    0 <= j < old(self).blocks().len() && j != i ==> #[trigger] final(self).blocks()[j]
                        == old(self).blocks()[j]) && final(self).blocks()[i].0 == old(self).blocks()[i].0
                    && annotated(
                    old(self).blocks()[i].1,
                    final(self).blocks()[i].1,
                    metadata_key,
                    metadata_value,
                ),
            lacks_key(old(self).blocks(), key@) ==> (r matches Err(MemoryError::KeyNotFound(m))
                && m@ == key@) && final(self).blocks() == old(self).blocks(),
    {
        let k = key.to_owned();
        match position(&self.storage, &k) {
            Some(i) => {
                let ghost s0 = self.storage@;
                let (name, mut block) = self.storage.remove(i);
                upsert(&mut block.metadata, metadata_key, metadata_value);
                self.storage.insert(i, (name, block));
                proof {
                    assert(self.storage@ =~= s0.update(i as int, self.storage@[i as int]));
                    lemma_bytes_update(s0, i as int, self.storage@[i as int]);
                    assert(forall|x: int|
                        0 <= x < s0.len() ==> (#[trigger] self.storage@[x]).0 == s0[x].0);
                }
                Ok(())
            },
            None => Err(MemoryError::KeyNotFound(k)),
        }
    }

    /// The metadata of the block under `key`.
    pub fn get_metadata(&self, key: &str) -> (r: Result<Vec<(String, String)>, MemoryError>)
        ensures
            forall|i: int|
                first_key(self.blocks(), key@, i) ==> (r matches Ok(md) && md@
                    == self.blocks()[i].1.metadata@),
            lacks_key(self.blocks(), key@) ==> (r matches Err(MemoryError::KeyNotFound(m)) && m@
                == key@),
    {
        let k = key.to_owned();
        match position(&self.storage, &k) {
            Some(i) => {
                let md = &self.storage[i].1.metadata;
                let mut out: Vec<(String, String)> = Vec::new();
                let mut j: usize = 0;
                while j < md.len()
                    invariant
                        j <= md@.len(),
                        out@ == md@.take(j as int),
                    decreases md@.len() - j,
                {
                    out.push((md[j].0.clone(), md[j].1.clone()));
                    j = j + 1;
                    assert(out@ =~= md@.take(j as int));
                }
                assert(md@.take(j as int) =~= md@);
                Ok(out)
            },
            None => Err(MemoryError::KeyNotFound(k)),
        }
    }

    pub fn get_stats(&self) -> (r: MemoryStats)
        ensures
            r == self.statistics(),
    {
        self.stats
    }
}

/// `after` is `before` with metadata entry `k` set to `v`, all else kept.
pub open spec fn annotated(before: MemoryBlock, after: MemoryBlock, k: String, v: String) -> bool {
    &&& after.data == before.data
    &&& after.timestamp == before.timestamp
    &&& after.ttl == before.ttl
    &&& after.metadata@ == upserted(before.metadata@, k, v)
}

fn position<V>(s: &Vec<(String, V)>, key: &String) -> (r: Option<usize>)
    ensures
        r matches Some(i) ==> first_key(s@, key@, i as int),
        r is None ==> lacks_key(s@, key@),
{
    let mut i: usize = 0;
    while i < s.len()
        invariant
            i <= s@.len(),
            forall|j: int| 0 <= j < i ==> (#[trigger] s@[j]).0@ != key@,
        decreases s@.len() - i,
    {
        if s[i].0 == *key {
            return Some(i);
        }
        i = i + 1;
    }
    None
}

fn upsert(md: &mut Vec<(String, String)>, k: String, v: String)
    ensures
        final(md)@ == upserted(old(md)@, k, v),
{
    match position(md, &k) {
        Some(i) => {
            let ghost s0 = md@;
            let (k0, _) = md.remove(i);
            md.insert(i, (k0, v));
            proof {
                assert(md@ =~= s0.update(i as int, (s0[i as int].0, v)));
                let c = choose|c: int| first_key(s0, k@, c);
                assert(c == i);
            }
        },
        None => {
            md.push((k, v));
        },
    }
}

fn copy_bytes(v: &Vec<u8>) -> (r: Vec<u8>)
    ensures
        r@ == v@,
{
    let mut out: Vec<u8> = Vec::new();
    let mut i: usize = 0;
    while i < v.len()
        invariant
            i <= v@.len(),
            out@ == v@.take(i as int),
        decreases v@.len() - i,
    {
        out.push(v[i]);
        i = i + 1;
        assert(out@ =~= v@.take(i as int));
    }
    assert(v@.take(i as int) =~= v@);
    out
}

} // verus!

verus! {

/// A second sweep at the same time finds nothing more to remove, so
/// `cleanup_expired_at` run twice in a row returns 0 the second time.
pub proof fn lemma_second_sweep_removes_nothing(s: Seq<(String, MemoryBlock)>, now: u64)
    ensures
        swept(swept(s, now), now) == swept(s, now),
        swept(s, now).len() - swept(swept(s, now), now).len() == 0,
{
    crate::seq_facts::lemma_filter_twice(s, unexpired(now));
}

/// No block left by a sweep at `now` is expired at `now`: a read at that
/// time finds either no block under its key or an unexpired one, just as a
/// read before the sweep refuses every expired block.
pub proof fn lemma_sweep_leaves_no_expired(s: Seq<(String, MemoryBlock)>, now: u64)
    ensures
        forall|k: int|
            0 <= k < swept(s, now).len() ==> !expired(#[trigger] swept(s, now)[k].1, now),
{
    assert forall|k: int| 0 <= k < swept(s, now).len() implies !expired(
        #[trigger] swept(s, now)[k].1,
        now,
    ) by {
        s.lemma_filter_pred(unexpired(now), k);
    }
}

proof fn lemma_sweep_keeps_lack(s: Seq<(String, MemoryBlock)>, key: Seq<char>, now: u64)
    requires
        lacks_key(s, key),
    ensures
        lacks_key(swept(s, now), key),
    decreases s.len(),
{
    reveal(Seq::filter);
    if s.len() > 0 {
        let p = s.drop_last();
        assert(forall|j: int| 0 <= j < p.len() ==> p[j] == s[j]);
        lemma_sweep_keeps_lack(p, key, now);
    }
}

proof fn lemma_unique_prefix(s: Seq<(String, MemoryBlock)>)
    requires
        s.len() > 0,
        keys_unique(s),
    ensures
        keys_unique(s.drop_last()),
        lacks_key(s.drop_last(), s.last().0@),
{
    let p = s.drop_last();
    assert(forall|j: int| 0 <= j < p.len() ==> p[j] == s[j]);
    assert forall|j: int| 0 <= j < p.len() implies (#[trigger] p[j]).0@ != s.last().0@ by {
        assert(s[j].0@ != s[s.len() - 1].0@);
    }
}

/// A sweep at `now` does not change what a read of a key at `now` finds:
/// a block that is not expired stays, and is still the one under its key;
/// an expired block goes, and its key is then absent.
pub proof fn lemma_sweep_keeps_reads(s: Seq<(String, MemoryBlock)>, key: Seq<char>, now: u64, i: int)
    requires
        keys_unique(s),
        0 <= i < s.len(),
        s[i].0@ == key,
    ensures
        !expired(s[i].1, now) ==> exists|j: int|
            first_key(swept(s, now), key, j) && swept(s, now)[j] == s[i],
        expired(s[i].1, now) ==> lacks_key(swept(s, now), key),
    decreases s.len(),
{
    reveal(Seq::filter);
    let p = s.drop_last();
    lemma_unique_prefix(s);
    assert(forall|j: int| 0 <= j < p.len() ==> p[j] == s[j]);
    let sp = swept(p, now);
    if i == s.len() - 1 {
        lemma_sweep_keeps_lack(p, key, now);
        if !expired(s[i].1, now) {
            assert(swept(s, now) == sp.push(s.last()));
            assert(first_key(swept(s, now), key, sp.len() as int));
        } else {
            assert(swept(s, now) == sp);
        }
    } else {
        lemma_sweep_keeps_reads(p, key, now, i);
        assert(s.last().0@ != key);
        if !expired(s.last().1, now) {
            assert(swept(s, now) == sp.push(s.last()));
            if !expired(s[i].1, now) {
                let j = choose|j: int| first_key(sp, key, j) && sp[j] == p[i];
                assert(first_key(swept(s, now), key, j));
            }
        } else {
            assert(swept(s, now) == sp);
        }
    }
}

/// The sum of `sizes`.
pub open spec fn total_size(sizes: Seq<usize>) -> nat
    decreases sizes.len(),
{
    if sizes.len() == 0 {
        0
    } else {
        total_size(sizes.drop_last()) + sizes.last() as nat
    }
}

/// Statistics after successful allocations of `sizes`, in turn, from `st`.
pub open spec fn allocated_all(st: MemoryStats, sizes: Seq<usize>) -> MemoryStats
    decreases sizes.len(),
{
    if sizes.len() == 0 {
        st
    } else {
        after_allocation(allocated_all(st, sizes.drop_last()), sizes.last())
    }
}

/// One more successful allocation of a new key extends the run: a caller
/// that keeps the sizes allocated so far carries
/// `statistics() == allocated_all(zero_stats(), sizes)` from call to call.
pub proof fn lemma_allocation_extends_run(st: MemoryStats, sizes: Seq<usize>, size: usize)
    ensures
        allocated_all(st, sizes.push(size)) == after_allocation(allocated_all(st, sizes), size),
{
    assert(sizes.push(size).drop_last() =~= sizes);
}

/// After successful allocations totalling `B` bytes into a new store, with
/// nothing freed: `B` bytes were allocated and are in use, the peak is at
/// least `B`, and the allocation count is the number of allocations.
pub proof fn lemma_allocations_accumulate(sizes: Seq<usize>)
    requires
        total_size(sizes) <= usize::MAX,
        sizes.len() <= u64::MAX,
    ensures
        allocated_all(zero_stats(), sizes).total_allocated == total_size(sizes),
        allocated_all(zero_stats(), sizes).current_usage == total_size(sizes),
        allocated_all(zero_stats(), sizes).peak_usage >= total_size(sizes),
        allocated_all(zero_stats(), sizes).allocation_count == sizes.len(),
        allocated_all(zero_stats(), sizes).total_freed == 0,
    decreases sizes.len(),
{
    if sizes.len() > 0 {
        lemma_allocations_accumulate(sizes.drop_last());
    }
}

} // verus!
