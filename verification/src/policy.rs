//! The mathematical model of the cache engine: the resident entries in
//! recency order with their region tags, the backing association, and the
//! transition functions that maintenance applies when it drains the event
//! buffers. The engine's executable functions are specified against these,
//! and the laws at the end of the module are proved of them once and for all.

use vstd::prelude::*;

use crate::linked_list::CacheRegion;
use crate::logs::WriteEv;
use crate::sketch::{est, key_bytes, lemma_increment_monotone, sm_increment, sm_wf, SketchModel};

verus! {

/// One resident entry as the model sees it.
#[verifier::ext_equal]
pub struct EntryV {
    pub key: Seq<char>,
    pub region: CacheRegion,
}

/// The structural state of the cache: the residents in recency order (front
/// = least recently touched) and the authoritative key-to-value association.
#[verifier::ext_equal]
pub struct CoreModel {
    pub residents: Seq<EntryV>,
    pub store: Map<Seq<char>, Seq<char>>,
}

pub open spec fn res_keys(res: Seq<EntryV>) -> Seq<Seq<char>> {
    res.map_values(|e: EntryV| e.key)
}

/// The invariant tying the backing map to the eviction order: an entry is in
/// the map exactly when a node for it sits in one region of the order, no
/// key is resident twice, and the resident count never exceeds the capacity.
pub open spec fn core_wf(c: CoreModel, cap: nat) -> bool {
    &&& res_keys(c.residents).no_duplicates()
    &&& c.store.dom() == res_keys(c.residents).to_set()
    &&& c.residents.len() <= cap
}

pub open spec fn is_resident(res: Seq<EntryV>, k: Seq<char>) -> bool {
    exists|i: int| 0 <= i < res.len() && res[i].key == k
}

/// The position of a resident key; unique while keys are distinct.
pub open spec fn resident_at(res: Seq<EntryV>, k: Seq<char>) -> int {
    choose|i: int| 0 <= i < res.len() && res[i].key == k
}

/// A drained read of a resident key protects it and moves it to the back of
/// the order; a read of an absent key changes nothing structural.
pub open spec fn apply_read(c: CoreModel, k: Seq<char>) -> CoreModel {
    if is_resident(c.residents, k) {
        let i = resident_at(c.residents, k);
        CoreModel {
            residents: c.residents.remove(i).push(
                EntryV { key: k, region: CacheRegion::MainProtected },
            ),
            store: c.store,
        }
    } else {
        c
    }
}

/// A drained read batch, oldest first: each key bumps the sketch, and
/// resident keys are promoted.
pub open spec fn drain_reads(c: CoreModel, sk: SketchModel, keys: Seq<Seq<char>>) -> (
    CoreModel,
    SketchModel,
)
    decreases keys.len(),
{
    if keys.len() == 0 {
        (c, sk)
    } else {
        drain_reads(apply_read(c, keys[0]), sm_increment(sk, key_bytes(keys[0])), keys.drop_first())
    }
}

/// Entries still in the window age out of it when the next admission
/// arrives.
pub open spec fn demote_window(res: Seq<EntryV>) -> Seq<EntryV> {
    res.map_values(
        |e: EntryV|
            if e.region is Window {
                EntryV { key: e.key, region: CacheRegion::MainProbation }
            } else {
                e
            },
    )
}

/// Admission of a new key: current window entries age into probation, the
/// new entry lands at the back of the window, and the pair is stored.
pub open spec fn admit_new(c: CoreModel, k: Seq<char>, v: Seq<char>) -> CoreModel {
    CoreModel {
        residents: demote_window(c.residents).push(EntryV { key: k, region: CacheRegion::Window }),
        store: c.store.insert(k, v),
    }
}

/// Removal of a key: its node leaves the order and its entry leaves the map,
/// as one step. Removing an absent key changes nothing.
pub open spec fn drop_resident(c: CoreModel, k: Seq<char>) -> CoreModel {
    if is_resident(c.residents, k) {
        CoreModel {
            residents: c.residents.remove(resident_at(c.residents, k)),
            store: c.store.remove(k),
        }
    } else {
        c
    }
}

/// The victim scan from position `i` with current best `best`: the first
/// resident with the lowest estimated frequency, scanning front to back.
pub open spec fn victim_from(res: Seq<EntryV>, sk: SketchModel, i: int, best: int) -> int
    decreases res.len() - i,
{
    if i < 0 || i >= res.len() {
        best
    } else if est(sk, key_bytes(res[i].key)) < est(sk, key_bytes(res[best].key)) {
        victim_from(res, sk, i + 1, i)
    } else {
        victim_from(res, sk, i + 1, best)
    }
}

/// The eviction victim among the residents: lowest estimated frequency, ties
/// broken toward the front of the order.
pub open spec fn victim_idx(res: Seq<EntryV>, sk: SketchModel) -> int {
    victim_from(res, sk, 1, 0)
}

/// A drained insert: a resident key only has its value refreshed; below
/// capacity a new key is admitted unconditionally; at capacity the candidate
/// is admitted, evicting the victim, exactly when its estimated frequency
/// strictly exceeds the victim's.
pub open spec fn apply_insert(
    c: CoreModel,
    sk: SketchModel,
    cap: nat,
    k: Seq<char>,
    v: Seq<char>,
) -> CoreModel {
    if c.store.contains_key(k) {
        CoreModel { residents: c.residents, store: c.store.insert(k, v) }
    } else if c.residents.len() < cap {
        admit_new(c, k, v)
    } else {
        let w = victim_idx(c.residents, sk);
        if est(sk, key_bytes(k)) > est(sk, key_bytes(c.residents[w].key)) {
            admit_new(drop_resident(c, c.residents[w].key), k, v)
        } else {
            c
        }
    }
}

pub open spec fn apply_write(c: CoreModel, sk: SketchModel, cap: nat, ev: WriteEv) -> CoreModel {
    match ev {
        WriteEv::Insert(k, v) => apply_insert(c, sk, cap, k, v),
        WriteEv::Remove(k) => drop_resident(c, k),
    }
}

/// A drained write batch, oldest first, under one frequency snapshot.
pub open spec fn drain_writes(
    c: CoreModel,
    sk: SketchModel,
    cap: nat,
    evs: Seq<WriteEv>,
) -> CoreModel
    decreases evs.len(),
{
    if evs.len() == 0 {
        c
    } else {
        drain_writes(apply_write(c, sk, cap, evs[0]), sk, cap, evs.drop_first())
    }
}

/// Removing an element of a duplicate-free sequence keeps it duplicate-free
/// and takes exactly that element out of its set of values.
pub proof fn lemma_remove_keeps<A>(s: Seq<A>, i: int)
    requires
        0 <= i < s.len(),
        s.no_duplicates(),
    ensures
        s.remove(i).no_duplicates(),
        forall|x: A| #[trigger] s.remove(i).contains(x) <==> s.contains(x) && x != s[i],
        s.remove(i).to_set() == s.to_set().remove(s[i]),
{
    let s2 = s.remove(i);
    s.remove_ensures(i);
    assert forall|x: A| #[trigger] s2.contains(x) implies s.contains(x) && x != s[i] by {
        let j = choose|j: int| 0 <= j < s2.len() && s2[j] == x;
        if j < i {
            assert(s[j] == x);
        } else {
            assert(s[j + 1] == x);
        }
    }
    assert forall|x: A| s.contains(x) && x != s[i] implies #[trigger] s2.contains(x) by {
        let j = choose|j: int| 0 <= j < s.len() && s[j] == x;
        if j < i {
            assert(s2[j] == x);
        } else {
            assert(s2[j - 1] == x);
        }
    }
    assert(s2.to_set() =~= s.to_set().remove(s[i]));
}

/// Appending a fresh element to a duplicate-free sequence keeps it
/// duplicate-free and adds exactly that element to its set of values.
pub proof fn lemma_push_keeps<A>(s: Seq<A>, a: A)
    requires
        s.no_duplicates(),
        !s.contains(a),
    ensures
        s.push(a).no_duplicates(),
        forall|x: A| #[trigger] s.push(a).contains(x) <==> s.contains(x) || x == a,
        s.push(a).to_set() == s.to_set().insert(a),
{
    let s2 = s.push(a);
    assert forall|x: A| #[trigger] s2.contains(x) implies s.contains(x) || x == a by {
        let j = choose|j: int| 0 <= j < s2.len() && s2[j] == x;
        if j < s.len() {
            assert(s[j] == x);
        }
    }
    assert forall|x: A| s.contains(x) || x == a implies #[trigger] s2.contains(x) by {
        if s.contains(x) {
            let j = choose|j: int| 0 <= j < s.len() && s[j] == x;
            assert(s2[j] == x);
        } else {
            assert(s2[s.len() as int] == x);
        }
    }
    assert(s2.to_set() =~= s.to_set().insert(a));
}

/// Window demotion changes region tags only: the key sequence is untouched.
pub proof fn lemma_demote_keys(res: Seq<EntryV>)
    ensures
        res_keys(demote_window(res)) == res_keys(res),
        demote_window(res).len() == res.len(),
{
    assert(res_keys(demote_window(res)) =~= res_keys(res));
}

/// A drained read preserves the structural invariant.
pub proof fn lemma_apply_read_wf(c: CoreModel, cap: nat, k: Seq<char>)
    requires
        core_wf(c, cap),
    ensures
        core_wf(apply_read(c, k), cap),
        apply_read(c, k).store == c.store,
{
    if is_resident(c.residents, k) {
        let i = resident_at(c.residents, k);
        assert(0 <= i < c.residents.len() && c.residents[i].key == k);
        let ks = res_keys(c.residents);
        let moved = c.residents.remove(i).push(EntryV { key: k, region: CacheRegion::MainProtected });
        assert(res_keys(c.residents.remove(i)) =~= ks.remove(i)) by {
            c.residents.remove_ensures(i);
            ks.remove_ensures(i);
        }
        assert(res_keys(moved) =~= ks.remove(i).push(k));
        lemma_remove_keeps(ks, i);
        lemma_push_keeps(ks.remove(i), k);
        assert(res_keys(moved).to_set() =~= ks.to_set());
    }
}

/// Draining a read batch leaves the backing association as it was and keeps
/// the structural invariant.
pub proof fn lemma_drain_reads_wf(c: CoreModel, sk: SketchModel, cap: nat, keys: Seq<Seq<char>>)
    requires
        core_wf(c, cap),
    ensures
        core_wf(drain_reads(c, sk, keys).0, cap),
        drain_reads(c, sk, keys).0.store == c.store,
    decreases keys.len(),
{
    if keys.len() > 0 {
        lemma_apply_read_wf(c, cap, keys[0]);
        lemma_drain_reads_wf(
            apply_read(c, keys[0]),
            sm_increment(sk, key_bytes(keys[0])),
            cap,
            keys.drop_first(),
        );
    }
}

/// Removal preserves the structural invariant and leaves the key absent.
pub proof fn lemma_drop_resident_wf(c: CoreModel, cap: nat, k: Seq<char>)
    requires
        core_wf(c, cap),
    ensures
        core_wf(drop_resident(c, k), cap),
        !drop_resident(c, k).store.contains_key(k),
        drop_resident(c, k).residents.len() == (if is_resident(c.residents, k) {
            c.residents.len() - 1
        } else {
            c.residents.len() as int
        }),
{
    let ks = res_keys(c.residents);
    if is_resident(c.residents, k) {
        let i = resident_at(c.residents, k);
        assert(0 <= i < c.residents.len() && c.residents[i].key == k);
        assert(res_keys(c.residents.remove(i)) =~= ks.remove(i)) by {
            c.residents.remove_ensures(i);
            ks.remove_ensures(i);
        }
        lemma_remove_keeps(ks, i);
        assert(ks[i] == k);
        assert(drop_resident(c, k).store.dom() =~= ks.remove(i).to_set());
    } else {
        if c.store.contains_key(k) {
            assert(ks.to_set().contains(k));
            let j = choose|j: int| 0 <= j < ks.len() && ks[j] == k;
            assert(c.residents[j].key == k);
        }
    }
}

/// Admission of a fresh key below capacity preserves the structural
/// invariant and stores the new pair.
pub proof fn lemma_admit_new_wf(c: CoreModel, cap: nat, k: Seq<char>, v: Seq<char>)
    requires
        core_wf(c, cap),
        !c.store.contains_key(k),
        c.residents.len() < cap,
    ensures
        core_wf(admit_new(c, k, v), cap),
        admit_new(c, k, v).store == c.store.insert(k, v),
        admit_new(c, k, v).residents.len() == c.residents.len() + 1,
        admit_new(c, k, v).store.contains_key(k),
        admit_new(c, k, v).store[k] == v,
{
    let ks = res_keys(c.residents);
    lemma_demote_keys(c.residents);
    assert(!ks.contains(k)) by {
        if ks.contains(k) {
            assert(ks.to_set().contains(k));
        }
    }
    let pushed = demote_window(c.residents).push(EntryV { key: k, region: CacheRegion::Window });
    assert(res_keys(pushed) =~= ks.push(k));
    lemma_push_keeps(ks, k);
    assert(admit_new(c, k, v).store.dom() =~= ks.push(k).to_set());
}

/// The victim scan lands on a resident whose estimate no resident beats, and
/// no earlier resident ties it.
pub proof fn lemma_victim_from(res: Seq<EntryV>, sk: SketchModel, i: int, best: int)
    requires
        0 <= best < res.len(),
        best < i,
        forall|j: int|
            0 <= j < i && j < res.len() ==> est(sk, key_bytes(#[trigger] res[j].key)) >= est(
                sk,
                key_bytes(res[best].key),
            ),
    ensures
        ({
            let w = victim_from(res, sk, i, best);
            &&& 0 <= w < res.len()
            &&& est(sk, key_bytes(res[w].key)) <= est(sk, key_bytes(res[best].key))
            &&& forall|j: int|
                i <= j < res.len() ==> est(sk, key_bytes(#[trigger] res[j].key)) >= est(
                    sk,
                    key_bytes(res[w].key),
                )
        }),
    decreases res.len() - i,
{
    if 0 <= i && i < res.len() {
        if est(sk, key_bytes(res[i].key)) < est(sk, key_bytes(res[best].key)) {
            lemma_victim_from(res, sk, i + 1, i);
        } else {
            lemma_victim_from(res, sk, i + 1, best);
        }
    }
}

/// The victim is the least-frequent resident, first of its kind in recency
/// order.
pub proof fn lemma_victim_minimal(res: Seq<EntryV>, sk: SketchModel)
    requires
        res.len() >= 1,
    ensures
        0 <= victim_idx(res, sk) < res.len(),
        forall|j: int|
            0 <= j < res.len() ==> est(sk, key_bytes(#[trigger] res[j].key)) >= est(
                sk,
                key_bytes(res[victim_idx(res, sk)].key),
            ),
{
    lemma_victim_from(res, sk, 1, 0);
}

/// A drained insert preserves the structural invariant; this also shows the
/// capacity bound survives the admission path.
pub proof fn lemma_apply_insert_wf(
    c: CoreModel,
    sk: SketchModel,
    cap: nat,
    k: Seq<char>,
    v: Seq<char>,
)
    requires
        core_wf(c, cap),
        cap >= 1,
    ensures
        core_wf(apply_insert(c, sk, cap, k, v), cap),
{
    if c.store.contains_key(k) {
        let ks = res_keys(c.residents);
        assert(apply_insert(c, sk, cap, k, v).store.dom() =~= ks.to_set());
    } else if c.residents.len() < cap {
        lemma_admit_new_wf(c, cap, k, v);
    } else {
        lemma_victim_minimal(c.residents, sk);
        let w = victim_idx(c.residents, sk);
        let wk = c.residents[w].key;
        if est(sk, key_bytes(k)) > est(sk, key_bytes(wk)) {
            lemma_drop_resident_wf(c, cap, wk);
            let c2 = drop_resident(c, wk);
            assert(is_resident(c.residents, wk));
            assert(!c2.store.contains_key(k)) by {
                assert(!c.store.contains_key(k));
            }
            lemma_admit_new_wf(c2, cap, k, v);
        }
    }
}

/// One drained write preserves the structural invariant.
pub proof fn lemma_apply_write_wf(c: CoreModel, sk: SketchModel, cap: nat, ev: WriteEv)
    requires
        core_wf(c, cap),
        cap >= 1,
    ensures
        core_wf(apply_write(c, sk, cap, ev), cap),
{
    match ev {
        WriteEv::Insert(k, v) => lemma_apply_insert_wf(c, sk, cap, k, v),
        WriteEv::Remove(k) => lemma_drop_resident_wf(c, cap, k),
    }
}

/// Capacity invariant: however many buffered inserts and removes a
/// maintenance pass applies, the structural invariant holds afterwards; in
/// particular the resident count never exceeds the capacity.
pub proof fn lemma_drain_writes_wf(c: CoreModel, sk: SketchModel, cap: nat, evs: Seq<WriteEv>)
    requires
        core_wf(c, cap),
        cap >= 1,
    ensures
        core_wf(drain_writes(c, sk, cap, evs), cap),
        drain_writes(c, sk, cap, evs).residents.len() <= cap,
    decreases evs.len(),
{
    if evs.len() > 0 {
        lemma_apply_write_wf(c, sk, cap, evs[0]);
        lemma_drain_writes_wf(apply_write(c, sk, cap, evs[0]), sk, cap, evs.drop_first());
    }
}

/// Admission correctness: at capacity, a candidate that is not yet resident
/// ends up stored exactly when its estimated frequency strictly exceeds the
/// victim's; on a tie or less, the cache is left unchanged. The victim is a
/// resident that no other resident's estimate undercuts.
pub proof fn lemma_admission_correct(
    c: CoreModel,
    sk: SketchModel,
    cap: nat,
    k: Seq<char>,
    v: Seq<char>,
)
    requires
        core_wf(c, cap),
        cap >= 1,
        c.residents.len() == cap,
        !c.store.contains_key(k),
    ensures
        ({
            let w = victim_idx(c.residents, sk);
            let c2 = apply_insert(c, sk, cap, k, v);
            &&& 0 <= w < c.residents.len()
            &&& forall|j: int|
                0 <= j < c.residents.len() ==> est(sk, key_bytes(#[trigger] c.residents[j].key))
                    >= est(sk, key_bytes(c.residents[w].key))
            &&& c2.store.contains_key(k) <==> est(sk, key_bytes(k)) > est(
                sk,
                key_bytes(c.residents[w].key),
            )
            &&& !(est(sk, key_bytes(k)) > est(sk, key_bytes(c.residents[w].key))) ==> c2 == c
        }),
{
    lemma_victim_minimal(c.residents, sk);
    let w = victim_idx(c.residents, sk);
    let wk = c.residents[w].key;
    if est(sk, key_bytes(k)) > est(sk, key_bytes(wk)) {
        lemma_drop_resident_wf(c, cap, wk);
        let c2 = drop_resident(c, wk);
        assert(is_resident(c.residents, wk));
        lemma_admit_new_wf(c2, cap, k, v);
    }
}

/// Draining a batch with one more event at its end is draining the batch
/// and then applying that event.
pub proof fn lemma_drain_writes_snoc(
    c: CoreModel,
    sk: SketchModel,
    cap: nat,
    evs: Seq<WriteEv>,
    ev: WriteEv,
)
    ensures
        drain_writes(c, sk, cap, evs.push(ev)) == apply_write(
            drain_writes(c, sk, cap, evs),
            sk,
            cap,
            ev,
        ),
    decreases evs.len(),
{
    let all = evs.push(ev);
    if evs.len() == 0 {
        assert(all[0] == ev);
        assert(all.drop_first() =~= Seq::<WriteEv>::empty());
        let c2 = apply_write(c, sk, cap, ev);
        assert(drain_writes(c, sk, cap, all) == drain_writes(c2, sk, cap, all.drop_first()));
        assert(drain_writes(c2, sk, cap, all.drop_first()) == c2);
    } else {
        assert(all[0] == evs[0]);
        assert(all.drop_first() =~= evs.drop_first().push(ev));
        let c2 = apply_write(c, sk, cap, evs[0]);
        assert(drain_writes(c, sk, cap, all) == drain_writes(c2, sk, cap, all.drop_first()));
        lemma_drain_writes_snoc(c2, sk, cap, evs.drop_first(), ev);
    }
}

/// Durability of an insert at the end of a queued batch: if, in the state
/// the earlier events leave behind, the key is resident, there is room, or
/// the candidate strictly beats the victim, then after the whole drain the
/// key maps to the inserted value.
pub proof fn lemma_insert_last_durable(
    c: CoreModel,
    sk: SketchModel,
    cap: nat,
    evs: Seq<WriteEv>,
    k: Seq<char>,
    v: Seq<char>,
)
    requires
        core_wf(c, cap),
        cap >= 1,
        ({
            let c1 = drain_writes(c, sk, cap, evs);
            c1.store.contains_key(k) || c1.residents.len() < cap || est(sk, key_bytes(k)) > est(
                sk,
                key_bytes(c1.residents[victim_idx(c1.residents, sk)].key),
            )
        }),
    ensures
        drain_writes(c, sk, cap, evs.push(WriteEv::Insert(k, v))).store.contains_key(k),
        drain_writes(c, sk, cap, evs.push(WriteEv::Insert(k, v))).store[k] == v,
{
    lemma_drain_writes_snoc(c, sk, cap, evs, WriteEv::Insert(k, v));
    lemma_drain_writes_wf(c, sk, cap, evs);
    let c1 = drain_writes(c, sk, cap, evs);
    if c1.store.contains_key(k) {
    } else if c1.residents.len() < cap {
        lemma_admit_new_wf(c1, cap, k, v);
    } else {
        lemma_victim_minimal(c1.residents, sk);
        let w = victim_idx(c1.residents, sk);
        let wk = c1.residents[w].key;
        lemma_drop_resident_wf(c1, cap, wk);
        assert(!drop_resident(c1, wk).store.contains_key(k)) by {
            assert(!c1.store.contains_key(k));
        }
        lemma_admit_new_wf(drop_resident(c1, wk), cap, k, v);
    }
}

/// Frequency monotonicity across a whole read drain: while the batch is
/// small enough that no halving can trigger, draining it never decreases
/// any key's estimate.
pub proof fn lemma_drain_reads_monotone(
    c: CoreModel,
    sk: SketchModel,
    keys: Seq<Seq<char>>,
    q: Seq<u8>,
)
    requires
        sm_wf(sk),
        sk.total + keys.len() < sk.limit,
    ensures
        est(drain_reads(c, sk, keys).1, q) >= est(sk, q),
    decreases keys.len(),
{
    if keys.len() > 0 {
        let sk2 = sm_increment(sk, key_bytes(keys[0]));
        lemma_increment_monotone(sk, key_bytes(keys[0]), q);
        assert(sm_wf(sk2));
        lemma_drain_reads_monotone(apply_read(c, keys[0]), sk2, keys.drop_first(), q);
    }
}

/// Remove visibility: a drained batch that ends with a remove of a key
/// leaves that key absent, whatever came before it in the batch.
pub proof fn lemma_remove_then_drain_absent(
    c: CoreModel,
    sk: SketchModel,
    cap: nat,
    evs: Seq<WriteEv>,
    k: Seq<char>,
)
    requires
        core_wf(c, cap),
        cap >= 1,
    ensures
        !drain_writes(c, sk, cap, evs.push(WriteEv::Remove(k))).store.contains_key(k),
    decreases evs.len(),
{
    let all = evs.push(WriteEv::Remove(k));
    if evs.len() == 0 {
        assert(all[0] == WriteEv::Remove(k));
        assert(all.drop_first() =~= Seq::<WriteEv>::empty());
        let c2 = drop_resident(c, k);
        assert(drain_writes(c, sk, cap, all) == drain_writes(c2, sk, cap, all.drop_first()));
        assert(drain_writes(c2, sk, cap, all.drop_first()) == c2);
        lemma_drop_resident_wf(c, cap, k);
    } else {
        assert(all[0] == evs[0]);
        assert(all.drop_first() =~= evs.drop_first().push(WriteEv::Remove(k)));
        let c2 = apply_write(c, sk, cap, evs[0]);
        assert(drain_writes(c, sk, cap, all) == drain_writes(c2, sk, cap, all.drop_first()));
        lemma_apply_write_wf(c, sk, cap, evs[0]);
        lemma_remove_then_drain_absent(c2, sk, cap, evs.drop_first(), k);
    }
}

} // verus!
