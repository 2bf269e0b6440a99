//! The cache engine. The hot-path operations (`get`, `insert`, `remove`) do
//! the immediate backing-map work, enqueue an event, and trigger maintenance
//! opportunistically once a buffer crosses its high-water mark; `sync`
//! forces an immediate drain of both buffers. Writes are acknowledged once
//! enqueued and become structurally visible when drained, so a `get` right
//! after an `insert` or `remove` sees the old structure until the next
//! drain: the eventually-consistent reading, stated exactly in the
//! contracts below over the model in [`crate::policy`].
//!
//! Region policy, chosen and documented here: an admitted entry lands in
//! the window; window entries age into main-probation when the next
//! admission arrives (so the window holds roughly the latest arrival); a
//! drained read of a resident key promotes it to main-protected and moves
//! it to the back of the order; the protected region is not capped.

use vstd::prelude::*;

use crate::backing::{
    backing_contents, backing_get, backing_insert, backing_new, backing_remove, empty_contents,
    BackingMap,
};
use crate::linked_list::CacheRegion;
use crate::logs::{
    read_log_bound, read_log_items, write_log_bound, write_log_items, ReadLog, WriteEv, WriteLog,
    WriteOp,
};
use crate::policy::{
    admit_new, apply_insert, apply_read, apply_write, core_wf, drain_reads, drain_writes,
    drop_resident, is_resident, lemma_admit_new_wf, lemma_apply_read_wf, lemma_drain_reads_wf,
    lemma_drop_resident_wf, lemma_remove_then_drain_absent, res_keys,
    resident_at, victim_from, victim_idx, CoreModel, EntryV,
};
use crate::sketch::{est, key_bytes, FrequencySketch, SketchModel};

verus! {

/// Capacity of the read log.
pub const READ_LOG_SIZE: usize = 64;

/// Capacity of the write log; larger than the read log because a structural
/// mutation must not be dropped.
pub const WRITE_LOG_SIZE: usize = 256;

/// Read-log length at which maintenance is triggered (75% of capacity).
pub const READ_LOG_HIGH_WATER_MARK: usize = 48;

/// Write-log length at which maintenance is triggered (50% of capacity).
pub const WRITE_LOG_HIGH_WATER_MARK: usize = 128;

/// One resident entry: its key and the region of the eviction order it
/// currently belongs to.
pub struct Entry {
    pub key: String,
    pub region: CacheRegion,
}

/// The cache: a fixed capacity, the backing map, the residents in recency
/// order with their region tags, the frequency sketch, and the two event
/// buffers.
pub struct LFUCache {
    capacity: usize,
    store: BackingMap,
    residents: Vec<Entry>,
    sketch: FrequencySketch,
    read_log: ReadLog,
    write_log: WriteLog,
}

impl LFUCache {
    /// The structural state: residents in order, and the stored association.
    pub closed spec fn model(&self) -> CoreModel {
        CoreModel {
            residents: self.residents@.map_values(
                |e: Entry| EntryV { key: e.key@, region: e.region },
            ),
            store: backing_contents(self.store),
        }
    }

    /// The frequency sketch's state.
    pub closed spec fn freq(&self) -> SketchModel {
        self.sketch.model()
    }

    /// The buffered read events, oldest first.
    pub closed spec fn reads(&self) -> Seq<Seq<char>> {
        read_log_items(self.read_log)
    }

    /// The buffered write events, oldest first.
    pub closed spec fn writes(&self) -> Seq<WriteEv> {
        write_log_items(self.write_log)
    }

    pub closed spec fn cap(&self) -> nat {
        self.capacity as nat
    }

    /// The invariant that holds between maintenance steps; the buffer-length
    /// bounds of `wf` are allowed to lapse while a drain is in progress.
    spec fn inner_wf(&self) -> bool {
        &&& self.capacity >= 1
        &&& core_wf(self.model(), self.cap())
        &&& self.sketch.wf()
        &&& read_log_bound(self.read_log) == READ_LOG_SIZE as nat
        &&& write_log_bound(self.write_log) == WRITE_LOG_SIZE as nat
    }

    /// The invariant that every public operation preserves: the structural
    /// invariant, a well-formed sketch, and both buffers below their
    /// high-water marks (an operation that reaches a mark drains before it
    /// returns).
    pub closed spec fn wf(&self) -> bool {
        &&& self.inner_wf()
        &&& self.reads().len() < READ_LOG_HIGH_WATER_MARK as nat
        &&& self.writes().len() < WRITE_LOG_HIGH_WATER_MARK as nat
    }

    /// Builds a cache of the given capacity. A zero capacity is a
    /// configuration error and is excluded; the upper bound keeps the
    /// sketch's counter table allocatable.
    pub fn new(capacity: usize) -> (c: Self)
        requires
            1 <= capacity <= usize::MAX / 4,
        ensures
            c.wf(),
            c.cap() == capacity as nat,
            c.model().residents == Seq::<EntryV>::empty(),
            c.model().store == empty_contents(),
            c.reads().len() == 0,
            c.writes().len() == 0,
            forall|q: Seq<u8>| #[trigger] est(c.freq(), q) == 0,
    {
        let c = LFUCache {
            capacity,
            store: backing_new(capacity),
            residents: Vec::new(),
            sketch: FrequencySketch::new(capacity),
            read_log: ReadLog::new(READ_LOG_SIZE),
            write_log: WriteLog::new(WRITE_LOG_SIZE),
        };
        proof {
            assert(c.model().residents =~= Seq::<EntryV>::empty());
            assert(res_keys(c.model().residents) =~= Seq::<Seq<char>>::empty());
            assert(c.model().store.dom() =~= res_keys(c.model().residents).to_set());
        }
        c
    }

    /// Promotes a resident key to the protected region and moves it to the
    /// back of the order; absent keys change nothing.
    fn touch_resident(&mut self, key: &String)
        requires
            old(self).inner_wf(),
        ensures
            final(self).inner_wf(),
            final(self).model() == apply_read(old(self).model(), key@),
            final(self).freq() == old(self).freq(),
            final(self).reads() == old(self).reads(),
            final(self).writes() == old(self).writes(),
            final(self).cap() == old(self).cap(),
    {
        let ghost pre = *self;
        let n = self.residents.len();
        let mut j: usize = 0;
        while j < n
            invariant
                pre == *old(self),
                *self == pre,
                pre.inner_wf(),
                n == pre.residents@.len(),
                0 <= j <= n,
                forall|i: int| 0 <= i < j ==> #[trigger] pre.residents@[i].key@ != key@,
            decreases n - j,
        {
            if self.residents[j].key == *key {
                let e = self.residents.remove(j);
                self.residents.push(Entry { key: e.key, region: CacheRegion::MainProtected });
                proof {
                    let c = pre.model();
                    let jj = j as int;
                    assert(c.residents[jj].key == key@);
                    assert(is_resident(c.residents, key@));
                    let i = resident_at(c.residents, key@);
                    assert(0 <= i < c.residents.len() && c.residents[i].key == key@);
                    assert(i == jj) by {
                        if i != jj {
                            assert(res_keys(c.residents)[i] == key@);
                            assert(res_keys(c.residents)[jj] == key@);
                        }
                    }
                    pre.residents@.remove_ensures(jj);
                    c.residents.remove_ensures(jj);
                    assert(self.model().residents =~= c.residents.remove(jj).push(
                        EntryV { key: key@, region: CacheRegion::MainProtected },
                    ));
                    assert(self.model() =~= apply_read(c, key@));
                    lemma_apply_read_wf(c, pre.cap(), key@);
                }
                return ;
            }
            j = j + 1;
        }
        proof {
            let c = pre.model();
            assert(!is_resident(c.residents, key@)) by {
                if is_resident(c.residents, key@) {
                    let i = choose|i: int| 0 <= i < c.residents.len() && c.residents[i].key == key@;
                    assert(pre.residents@[i].key@ == key@);
                }
            }
        }
    }

    /// Drains the read log: each buffered key bumps the frequency sketch,
    /// and resident keys are promoted to the protected region.
    fn apply_reads(&mut self)
        requires
            old(self).inner_wf(),
        ensures
            final(self).inner_wf(),
            final(self).model() == drain_reads(old(self).model(), old(self).freq(), old(self).reads()).0,
            final(self).freq() == drain_reads(old(self).model(), old(self).freq(), old(self).reads()).1,
            final(self).reads().len() == 0,
            final(self).writes() == old(self).writes(),
            final(self).cap() == old(self).cap(),
    {
        let ghost pre = *self;
        let n = self.read_log.len();
        let mut i: usize = 0;
        while i < n
            invariant
                self.inner_wf(),
                0 <= i <= n,
                self.reads().len() == n - i,
                drain_reads(self.model(), self.freq(), self.reads()) == drain_reads(
                    pre.model(),
                    pre.freq(),
                    pre.reads(),
                ),
                self.writes() == pre.writes(),
                self.cap() == pre.cap(),
            decreases n - i,
        {
            let ghost mid = *self;
            match self.read_log.try_pop() {
                Some(k) => {
                    proof {
                        assert(k@ == mid.reads()[0]);
                    }
                    self.sketch.increment(k.as_str());
                    self.touch_resident(&k);
                    proof {
                        assert(self.reads() == mid.reads().drop_first());
                        assert(drain_reads(mid.model(), mid.freq(), mid.reads()) == drain_reads(
                            self.model(),
                            self.freq(),
                            self.reads(),
                        ));
                    }
                },
                None => {},
            }
            i = i + 1;
        }
    }

    /// The eviction victim: the resident with the lowest estimated
    /// frequency, the one nearest the front of the order on a tie.
    fn find_victim(&self) -> (w: usize)
        requires
            self.inner_wf(),
            self.residents@.len() >= 1,
        ensures
            w < self.residents@.len(),
            w as int == victim_idx(self.model().residents, self.freq()),
    {
        let ghost res = self.model().residents;
        let ghost sk = self.freq();
        let mut best: usize = 0;
        let mut best_est = self.sketch.estimate(self.residents[0].key.as_str());
        let mut j: usize = 1;
        while j < self.residents.len()
            invariant
                self.inner_wf(),
                res == self.model().residents,
                sk == self.freq(),
                self.residents@.len() >= 1,
                1 <= j <= self.residents@.len(),
                0 <= best < j,
                best_est as nat == est(sk, key_bytes(res[best as int].key)),
                victim_from(res, sk, j as int, best as int) == victim_idx(res, sk),
            decreases self.residents@.len() - j,
        {
            let e = self.sketch.estimate(self.residents[j].key.as_str());
            if e < best_est {
                best = j;
                best_est = e;
            }
            j = j + 1;
        }
        best
    }

    /// Admits a key that is not yet resident while there is room: current
    /// window entries age into probation, the new entry lands at the back of
    /// the window, and the pair is stored.
    fn admit_entry(&mut self, key: String, value: String)
        requires
            old(self).inner_wf(),
            !old(self).model().store.contains_key(key@),
            old(self).residents@.len() < old(self).cap(),
        ensures
            final(self).inner_wf(),
            final(self).model() == admit_new(old(self).model(), key@, value@),
            final(self).freq() == old(self).freq(),
            final(self).reads() == old(self).reads(),
            final(self).writes() == old(self).writes(),
            final(self).cap() == old(self).cap(),
    {
        let ghost pre = *self;
        let n = self.residents.len();
        let mut j: usize = 0;
        while j < n
            invariant
                pre.inner_wf(),
                n == pre.residents@.len(),
                0 <= j <= n,
                self.capacity == pre.capacity,
                self.store == pre.store,
                self.sketch == pre.sketch,
                self.read_log == pre.read_log,
                self.write_log == pre.write_log,
                self.residents@.len() == n,
                forall|i: int|
                    0 <= i < n ==> #[trigger] self.residents@[i] == (if i < j
                        && pre.residents@[i].region is Window {
                        Entry { key: pre.residents@[i].key, region: CacheRegion::MainProbation }
                    } else {
                        pre.residents@[i]
                    }),
            decreases n - j,
        {
            if self.residents[j].region == CacheRegion::Window {
                let kcl = self.residents[j].key.clone();
                proof {
                    assert(kcl@ == pre.residents@[j as int].key@);
                }
                self.residents[j] = Entry { key: kcl, region: CacheRegion::MainProbation };
            }
            j = j + 1;
        }
        self.residents.push(Entry { key: key.clone(), region: CacheRegion::Window });
        backing_insert(&mut self.store, key, value);
        proof {
            let c = pre.model();
            assert(self.model().residents =~= crate::policy::demote_window(c.residents).push(
                EntryV { key: key@, region: CacheRegion::Window },
            ));
            assert(self.model() =~= admit_new(c, key@, value@));
            lemma_admit_new_wf(c, pre.cap(), key@, value@);
        }
    }

    /// Unlinks a resident key from the order and erases it from the map, as
    /// one step; absent keys change nothing.
    fn do_remove(&mut self, key: &String)
        requires
            old(self).inner_wf(),
        ensures
            final(self).inner_wf(),
            final(self).model() == drop_resident(old(self).model(), key@),
            final(self).freq() == old(self).freq(),
            final(self).reads() == old(self).reads(),
            final(self).writes() == old(self).writes(),
            final(self).cap() == old(self).cap(),
    {
        let ghost pre = *self;
        let n = self.residents.len();
        let mut j: usize = 0;
        while j < n
            invariant
                pre == *old(self),
                *self == pre,
                pre.inner_wf(),
                n == pre.residents@.len(),
                0 <= j <= n,
                forall|i: int| 0 <= i < j ==> #[trigger] pre.residents@[i].key@ != key@,
            decreases n - j,
        {
            if self.residents[j].key == *key {
                let _ = self.residents.remove(j);
                backing_remove(&mut self.store, key);
                proof {
                    let c = pre.model();
                    let jj = j as int;
                    assert(c.residents[jj].key == key@);
                    assert(is_resident(c.residents, key@));
                    let i = resident_at(c.residents, key@);
                    assert(0 <= i < c.residents.len() && c.residents[i].key == key@);
                    assert(i == jj) by {
                        if i != jj {
                            assert(res_keys(c.residents)[i] == key@);
                            assert(res_keys(c.residents)[jj] == key@);
                        }
                    }
                    pre.residents@.remove_ensures(jj);
                    c.residents.remove_ensures(jj);
                    assert(self.model().residents =~= c.residents.remove(jj));
                    assert(self.model() =~= drop_resident(c, key@));
                    lemma_drop_resident_wf(c, pre.cap(), key@);
                }
                return ;
            }
            j = j + 1;
        }
        proof {
            let c = pre.model();
            assert(!is_resident(c.residents, key@)) by {
                if is_resident(c.residents, key@) {
                    let i = choose|i: int| 0 <= i < c.residents.len() && c.residents[i].key == key@;
                    assert(pre.residents@[i].key@ == key@);
                }
            }
        }
    }

    /// Applies one buffered insert: a resident key has its value refreshed;
    /// below capacity the key is admitted unconditionally; at capacity the
    /// admission policy compares the candidate against the victim.
    fn do_insert(&mut self, key: String, value: String)
        requires
            old(self).inner_wf(),
        ensures
            final(self).inner_wf(),
            final(self).model() == apply_insert(
                old(self).model(),
                old(self).freq(),
                old(self).cap(),
                key@,
                value@,
            ),
            final(self).freq() == old(self).freq(),
            final(self).reads() == old(self).reads(),
            final(self).writes() == old(self).writes(),
            final(self).cap() == old(self).cap(),
    {
        let ghost pre = *self;
        let existing = backing_get(&self.store, &key);
        if existing.is_some() {
            backing_insert(&mut self.store, key, value);
            proof {
                let c = pre.model();
                assert(self.model() =~= apply_insert(c, pre.freq(), pre.cap(), key@, value@));
                assert(self.model().store.dom() =~= c.store.dom());
            }
        } else if self.residents.len() < self.capacity {
            self.admit_entry(key, value);
        } else {
            proof {
                assert(pre.residents@.len() == pre.cap());
            }
            let w = self.find_victim();
            let cand_est = self.sketch.estimate(key.as_str());
            let vict_est = self.sketch.estimate(self.residents[w].key.as_str());
            if cand_est > vict_est {
                let victim = self.residents.remove(w);
                backing_remove(&mut self.store, &victim.key);
                proof {
                    let c = pre.model();
                    let ww = w as int;
                    let vk = c.residents[ww].key;
                    assert(victim.key@ == vk);
                    assert(is_resident(c.residents, vk));
                    let i = resident_at(c.residents, vk);
                    assert(0 <= i < c.residents.len() && c.residents[i].key == vk);
                    assert(i == ww) by {
                        if i != ww {
                            assert(res_keys(c.residents)[i] == vk);
                            assert(res_keys(c.residents)[ww] == vk);
                        }
                    }
                    pre.residents@.remove_ensures(ww);
                    c.residents.remove_ensures(ww);
                    assert(self.model().residents =~= c.residents.remove(ww));
                    assert(self.model() =~= drop_resident(c, vk));
                    lemma_drop_resident_wf(c, pre.cap(), vk);
                    assert(!self.model().store.contains_key(key@));
                }
                self.admit_entry(key, value);
            }
        }
    }

    /// Drains the write log under the current frequency snapshot.
    fn apply_writes(&mut self)
        requires
            old(self).inner_wf(),
        ensures
            final(self).inner_wf(),
            final(self).model() == drain_writes(
                old(self).model(),
                old(self).freq(),
                old(self).cap(),
                old(self).writes(),
            ),
            final(self).freq() == old(self).freq(),
            final(self).reads() == old(self).reads(),
            final(self).writes().len() == 0,
            final(self).cap() == old(self).cap(),
    {
        let ghost pre = *self;
        let n = self.write_log.len();
        let mut i: usize = 0;
        while i < n
            invariant
                self.inner_wf(),
                0 <= i <= n,
                self.writes().len() == n - i,
                drain_writes(self.model(), pre.freq(), pre.cap(), self.writes()) == drain_writes(
                    pre.model(),
                    pre.freq(),
                    pre.cap(),
                    pre.writes(),
                ),
                self.freq() == pre.freq(),
                self.reads() == pre.reads(),
                self.cap() == pre.cap(),
            decreases n - i,
        {
            let ghost mid = *self;
            match self.write_log.try_pop() {
                Some(op) => {
                    proof {
                        assert(op@ == mid.writes()[0]);
                    }
                    match op {
                        WriteOp::Insert(k, v) => {
                            self.do_insert(k, v);
                            proof {
                                assert(self.model() == apply_write(
                                    mid.model(),
                                    pre.freq(),
                                    pre.cap(),
                                    mid.writes()[0],
                                ));
                            }
                        },
                        WriteOp::Remove(k) => {
                            self.do_remove(&k);
                            proof {
                                assert(self.model() == apply_write(
                                    mid.model(),
                                    pre.freq(),
                                    pre.cap(),
                                    mid.writes()[0],
                                ));
                            }
                        },
                    }
                    proof {
                        assert(self.writes() == mid.writes().drop_first());
                        assert(drain_writes(mid.model(), pre.freq(), pre.cap(), mid.writes())
                            == drain_writes(self.model(), pre.freq(), pre.cap(), self.writes()));
                    }
                },
                None => {},
            }
            i = i + 1;
        }
    }

    /// Reads the key's value. The read is recorded in the read log, and once
    /// the log reaches its high-water mark the buffered reads are drained
    /// into the frequency sketch and the recency order.
    pub fn get(&mut self, key: &String) -> (r: Option<String>)
        requires
            old(self).wf(),
        ensures
            final(self).wf(),
            r is Some <==> old(self).model().store.contains_key(key@),
            (r matches Some(v) ==> v@ == old(self).model().store[key@]),
            final(self).writes() == old(self).writes(),
            final(self).cap() == old(self).cap(),
            ({
                let pushed = old(self).reads().push(key@);
                if pushed.len() >= READ_LOG_HIGH_WATER_MARK as nat {
                    &&& final(self).model() == drain_reads(old(self).model(), old(self).freq(), pushed).0
                    &&& final(self).freq() == drain_reads(old(self).model(), old(self).freq(), pushed).1
                    &&& final(self).reads().len() == 0
                } else {
                    &&& final(self).model() == old(self).model()
                    &&& final(self).freq() == old(self).freq()
                    &&& final(self).reads() == pushed
                }
            }),
    {
        let r = backing_get(&self.store, key);
        let pushed_ok = self.read_log.try_push(key);
        proof {
            assert(pushed_ok);
        }
        let rlen = self.read_log.len();
        if rlen >= READ_LOG_HIGH_WATER_MARK {
            self.apply_reads();
        }
        r
    }

    /// Schedules an insert. The write is acknowledged once enqueued; the
    /// admission decision runs when the write log is drained. Reaching the
    /// high-water mark drains reads first (so admission sees the freshest
    /// popularity data), then writes.
    pub fn insert(&mut self, key: String, value: String)
        requires
            old(self).wf(),
        ensures
            final(self).wf(),
            final(self).cap() == old(self).cap(),
            ({
                let queued = old(self).writes().push(WriteEv::Insert(key@, value@));
                if queued.len() >= WRITE_LOG_HIGH_WATER_MARK as nat {
                    let after = drain_reads(old(self).model(), old(self).freq(), old(self).reads());
                    &&& final(self).model() == drain_writes(after.0, after.1, old(self).cap(), queued)
                    &&& final(self).freq() == after.1
                    &&& final(self).reads().len() == 0
                    &&& final(self).writes().len() == 0
                } else {
                    &&& final(self).model() == old(self).model()
                    &&& final(self).freq() == old(self).freq()
                    &&& final(self).reads() == old(self).reads()
                    &&& final(self).writes() == queued
                }
            }),
    {
        self.write_log.push(WriteOp::Insert(key, value));
        let wlen = self.write_log.len();
        if wlen >= WRITE_LOG_HIGH_WATER_MARK {
            self.apply_reads();
            self.apply_writes();
        }
    }

    /// Schedules a remove and returns the currently visible prior value,
    /// best-effort: when the enqueue itself triggers a drain, the removal is
    /// already applied and the result is `None`.
    pub fn remove(&mut self, key: &String) -> (r: Option<String>)
        requires
            old(self).wf(),
        ensures
            final(self).wf(),
            final(self).cap() == old(self).cap(),
            ({
                let queued = old(self).writes().push(WriteEv::Remove(key@));
                if queued.len() >= WRITE_LOG_HIGH_WATER_MARK as nat {
                    let after = drain_reads(old(self).model(), old(self).freq(), old(self).reads());
                    &&& final(self).model() == drain_writes(after.0, after.1, old(self).cap(), queued)
                    &&& final(self).freq() == after.1
                    &&& final(self).reads().len() == 0
                    &&& final(self).writes().len() == 0
                    &&& r is None
                } else {
                    &&& final(self).model() == old(self).model()
                    &&& final(self).freq() == old(self).freq()
                    &&& final(self).reads() == old(self).reads()
                    &&& final(self).writes() == queued
                    &&& (r is Some <==> old(self).model().store.contains_key(key@))
                    &&& (r matches Some(v) ==> v@ == old(self).model().store[key@])
                }
            }),
    {
        let ghost pre = *self;
        self.write_log.push(WriteOp::Remove(key.clone()));
        let wlen = self.write_log.len();
        if wlen >= WRITE_LOG_HIGH_WATER_MARK {
            self.apply_reads();
            self.apply_writes();
            proof {
                lemma_drain_reads_wf(pre.model(), pre.freq(), pre.cap(), pre.reads());
                lemma_remove_then_drain_absent(
                    drain_reads(pre.model(), pre.freq(), pre.reads()).0,
                    drain_reads(pre.model(), pre.freq(), pre.reads()).1,
                    pre.cap(),
                    pre.writes(),
                    key@,
                );
            }
        }
        backing_get(&self.store, key)
    }

    /// Forces an immediate drain of both buffers: reads first, then writes.
    pub fn sync(&mut self)
        requires
            old(self).wf(),
        ensures
            final(self).wf(),
            final(self).cap() == old(self).cap(),
            final(self).reads().len() == 0,
            final(self).writes().len() == 0,
            final(self).freq() == drain_reads(old(self).model(), old(self).freq(), old(self).reads()).1,
            final(self).model() == drain_writes(
                drain_reads(old(self).model(), old(self).freq(), old(self).reads()).0,
                drain_reads(old(self).model(), old(self).freq(), old(self).reads()).1,
                old(self).cap(),
                old(self).writes(),
            ),
    {
        self.apply_reads();
        self.apply_writes();
    }

    /// A well-formed cache satisfies the structural invariant: in
    /// particular, the resident count never exceeds the configured
    /// capacity, and a key is stored exactly when a node for it sits in the
    /// eviction order.
    pub proof fn lemma_wf_structural(&self)
        requires
            self.wf(),
        ensures
            core_wf(self.model(), self.cap()),
            self.model().residents.len() <= self.cap(),
            self.cap() >= 1,
    {
    }

    /// The key's estimated frequency, as the admission policy would see it.
    pub fn estimate(&self, key: &String) -> (e: u8)
        requires
            self.wf(),
        ensures
            e as nat == est(self.freq(), key_bytes(key@)),
    {
        self.sketch.estimate(key.as_str())
    }
}

} // verus!
