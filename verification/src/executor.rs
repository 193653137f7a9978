use vstd::prelude::*;
use crate::task_wake::TaskWake;

verus! {

/// The capability a spawned computation must provide: it can be advanced one
/// step per `poll` call and it reports whether it is still suspended.
///
/// `complete` is the abstract completion state of the computation; `poll`
/// advances the computation once and reports "still pending" exactly when the
/// computation has not completed. The token handed to `poll` is the only way
/// the computation can later ask to be polled again: it may keep a copy and
/// signal it once its external unblocking event arrives.
pub trait Computation: Sized {
    /// Whether the computation has run to completion.
    spec fn complete(&self) -> bool;

    /// The transition relation of one poll step: which states one call of
    /// `poll` may leave the computation in, starting from `pre`. The executor
    /// contracts relate every task state they report to the registered state
    /// it was polled from through this relation, so the more precisely an
    /// implementation pins it down, the more its callers can conclude.
    spec fn one_poll(pre: Self, post: Self) -> bool;

    /// Advance the computation by one step. `wake` is a fresh token for this
    /// task's registry entry, created for this poll attempt alone.
    fn poll(&mut self, wake: TaskWake) -> (pending: bool)
        ensures
            pending == !final(self).complete(),
            Self::one_poll(*old(self), *final(self)),
    ;
}

/// True when `keys` is strictly ascending, hence free of duplicates.
pub open spec fn strictly_ascending(keys: Seq<u64>) -> bool {
    forall|i: int, j: int| #![trigger keys[i], keys[j]] 0 <= i < j < keys.len() ==> keys[i] < keys[j]
}

/// In a strictly ascending sequence, an index holding a key is the only one,
/// so `index_of` returns exactly that index.
proof fn lemma_index_of_unique(keys: Seq<u64>, i: int)
    requires
        strictly_ascending(keys),
        0 <= i < keys.len(),
    ensures
        keys.index_of(keys[i]) == i,
{
    assert(keys.contains(keys[i]));
    let c = keys.index_of(keys[i]);
    assert(0 <= c < keys.len() && keys[c] == keys[i]);
    if c < i {
        assert(keys[c] < keys[i]);
    } else if i < c {
        assert(keys[i] < keys[c]);
    }
}

/// Removing one entry from a strictly ascending sequence keeps it strictly
/// ascending.
proof fn lemma_remove_keeps_ascending(keys: Seq<u64>, i: int)
    requires
        strictly_ascending(keys),
        0 <= i < keys.len(),
    ensures
        strictly_ascending(keys.remove(i)),
{
    let r = keys.remove(i);
    assert forall|a: int, b: int| #![trigger r[a], r[b]] 0 <= a < b < r.len() implies r[a] < r[b] by {
        let a2: int = if a < i { a } else { a + 1 };
        let b2: int = if b < i { b } else { b + 1 };
        assert(r[a] == keys[a2]);
        assert(r[b] == keys[b2]);
        assert(keys[a2] < keys[b2]);
    }
}

/// Removing one entry of a strictly ascending key sequence leaves the
/// membership of every other key unchanged.
proof fn lemma_remove_preserves_other_keys(keys: Seq<u64>, i: int, k: u64)
    requires
        0 <= i < keys.len(),
        k != keys[i],
    ensures
        keys.remove(i).contains(k) <==> keys.contains(k),
{
    let r = keys.remove(i);
    if keys.contains(k) {
        let j = choose|j: int| 0 <= j < keys.len() && keys[j] == k;
        if j < i {
            assert(r[j] == k);
        } else {
            assert(r[j - 1] == k);
        }
    }
    if r.contains(k) {
        let j = choose|j: int| 0 <= j < r.len() && r[j] == k;
        if j < i {
            assert(keys[j] == k);
        } else {
            assert(keys[j + 1] == k);
        }
    }
}

/// Once an entry of a strictly ascending key sequence is removed, its key is
/// absent from what remains.
proof fn lemma_removed_key_absent(keys: Seq<u64>, i: int)
    requires
        strictly_ascending(keys),
        0 <= i < keys.len(),
    ensures
        !keys.remove(i).contains(keys[i]),
{
    let r = keys.remove(i);
    assert forall|j: int| 0 <= j < r.len() implies r[j] != keys[i] by {
        let j2: int = if j < i { j } else { j + 1 };
        assert(r[j] == keys[j2]);
        if j2 < i {
            assert(keys[j2] < keys[i]);
        } else {
            assert(keys[i] < keys[j2]);
        }
    }
}

struct Entry<T> {
    key: u64,
    task: T,
}

/// A registry of suspended computations, advanced only on explicit wake
/// requests. The instance is constructed explicitly and passed to every call
/// site that needs it; there is no implicit process-wide instance.
pub struct ManualExecutor<T: Computation> {
    entries: Vec<Entry<T>>,
    next_key: u64,
}

impl<T: Computation> ManualExecutor<T> {
    /// The identities of the registered tasks, in ascending order.
    pub closed spec fn keys(self) -> Seq<u64> {
        self.entries@.map_values(|e: Entry<T>| e.key)
    }

    /// The registered computations, parallel to `keys`.
    pub closed spec fn tasks(self) -> Seq<T> {
        self.entries@.map_values(|e: Entry<T>| e.task)
    }

    /// The number of registered tasks.
    pub open spec fn count(self) -> nat {
        self.keys().len()
    }

    /// Whether a task is registered under `key`.
    pub open spec fn contains(self, key: u64) -> bool {
        self.keys().contains(key)
    }

    /// The identity the next spawn will assign.
    pub closed spec fn next_key(self) -> u64 {
        self.next_key
    }

    /// Well-formedness: keys are strictly ascending (so no two entries share
    /// a key) and every registered key is below the generator, so a fresh key
    /// never collides with a live entry.
    pub open spec fn wf(self) -> bool {
        &&& strictly_ascending(self.keys())
        &&& self.tasks().len() == self.keys().len()
        &&& forall|i: int| 0 <= i < self.keys().len() ==> #[trigger] self.keys()[i] < self.next_key()
    }

    /// Create an empty executor with an explicit lifecycle: the caller owns
    /// it and passes it to every call site that drives progress.
    pub fn new() -> (e: Self)
        ensures
            e.wf(),
            e.count() == 0,
            e.next_key() == 0,
    {
        ManualExecutor { entries: Vec::new(), next_key: 0 }
    }

    /// The number of currently suspended (registered) tasks; diagnostic.
    /// This always equals the number of computations spawned on this executor
    /// whose poll has not yet reported "finished": `spawn` raises the count by
    /// one, a wake lowers it by one exactly when the polled task came back
    /// complete, and a `wake_all` sweep keeps exactly the tasks it polled and
    /// found still suspended — each step is the respective contract here.
    pub fn task_count(&self) -> (n: usize)
        ensures
            n == self.count(),
    {
        self.entries.len()
    }

    /// Register a new suspended computation. The returned key is fresh: it
    /// was never used for any earlier spawn on this executor, so it cannot
    /// collide with a live entry. The new entry goes in above every existing
    /// key; nothing is polled.
    pub fn spawn(&mut self, task: T) -> (key: u64)
        requires
            old(self).wf(),
            old(self).next_key() < u64::MAX,
        ensures
            final(self).wf(),
            key == old(self).next_key(),
            !old(self).contains(key),
            final(self).contains(key),
            final(self).next_key() == old(self).next_key() + 1,
            final(self).keys() == old(self).keys().push(key),
            final(self).tasks() == old(self).tasks().push(task),
            final(self).count() == old(self).count() + 1,
            forall|k: u64| k != key
                ==> (#[trigger] final(self).contains(k) <==> old(self).contains(k)),
    {
        let key = self.next_key;
        self.next_key = self.next_key + 1;
        self.entries.push(Entry { key, task });
        proof {
            assert(self.keys() =~= old(self).keys().push(key));
            assert(self.tasks() =~= old(self).tasks().push(task));
            assert(self.keys().last() == key);
            assert(self.contains(key));
            assert forall|k: u64| k != key
                implies (#[trigger] self.contains(k) <==> old(self).contains(k)) by {
                if old(self).contains(k) {
                    let j = choose|j: int|
                        0 <= j < old(self).keys().len() && old(self).keys()[j] == k;
                    assert(self.keys()[j] == k);
                }
                if self.contains(k) {
                    let j = choose|j: int| 0 <= j < self.keys().len() && self.keys()[j] == k;
                    assert(j < old(self).keys().len());
                    assert(old(self).keys()[j] == k);
                }
            }
        }
        key
    }

    /// Ask to advance the task registered under `key`. An unknown key —
    /// already finished, never spawned, or stale — is silently ignored: wake
    /// requests may legitimately race with completion. A registered task is
    /// removed, polled exactly once, and reinserted under the same key if and
    /// only if the poll reported "still suspended"; a finished task stays out
    /// and its key is permanently invalid for future wakes. The returned
    /// ghost value is the outcome: the polled task's final state, or nothing
    /// when no task was registered under `key`.
    pub fn wake(&mut self, key: u64) -> (r: Ghost<Option<T>>)
        requires
            old(self).wf(),
        ensures
            final(self).wf(),
            wake_transition(*old(self), *final(self), key, r@),
    {
        let n = self.entries.len();
        let mut i: usize = 0;
        while i < n && self.entries[i].key != key
            invariant
                n == self.entries@.len(),
                i <= n,
                forall|j: int| 0 <= j < i ==> #[trigger] self.keys()[j] != key,
            decreases n - i,
        {
            proof {
                assert(self.keys()[i as int] == self.entries@[i as int].key);
            }
            i = i + 1;
        }
        if i == n {
            // no entry under this key: a no-op
            return Ghost(None);
        }
        proof {
            assert(self.keys()[i as int] == self.entries@[i as int].key);
            assert(self.contains(key));
            lemma_index_of_unique(self.keys(), i as int);
        }
        let mut entry = self.entries.remove(i);
        let ghost pre_task = entry.task;
        let pending = Self::poll_task(&mut entry.task, key, TaskWake::new(key));
        let ghost polled = entry.task;
        proof {
            assert(pre_task == old(self).tasks()[i as int]);
            assert(self.keys() =~= old(self).keys().remove(i as int));
            assert(self.tasks() =~= old(self).tasks().remove(i as int));
            lemma_remove_keeps_ascending(old(self).keys(), i as int);
        }
        if pending {
            self.entries.insert(i, entry);
            proof {
                assert(self.keys() =~= old(self).keys());
                assert(self.tasks() =~= old(self).tasks().update(i as int, polled));
            }
        } else {
            proof {
                assert forall|k: u64| k != key
                    implies (#[trigger] self.contains(k) <==> old(self).contains(k)) by {
                    lemma_remove_preserves_other_keys(old(self).keys(), i as int, k);
                }
            }
        }
        Ghost(Some(polled))
    }

    /// Spawn a computation and immediately wake it once, so it runs eagerly
    /// at least one step instead of waiting for an external trigger. The
    /// fresh key is returned either way, beside a ghost witness of the state
    /// the first poll left the computation in: if it completed on that poll,
    /// the registry is exactly as it was before the call (net zero), and
    /// otherwise the polled computation is registered under the fresh key,
    /// above every pre-existing entry.
    pub fn spawn_wake(&mut self, task: T) -> (r: (u64, Ghost<T>))
        requires
            old(self).wf(),
            old(self).next_key() < u64::MAX,
        ensures
            final(self).wf(),
            r.0 == old(self).next_key(),
            !old(self).contains(r.0),
            final(self).next_key() == old(self).next_key() + 1,
            forall|k: u64| k != r.0
                ==> (#[trigger] final(self).contains(k) <==> old(self).contains(k)),
            T::one_poll(task, r.1@),
            r.1@.complete() ==> (final(self).keys() == old(self).keys()
                && final(self).tasks() == old(self).tasks()),
            !r.1@.complete() ==> (final(self).keys() == old(self).keys().push(r.0)
                && final(self).tasks() == old(self).tasks().push(r.1@)),
    {
        let key = self.spawn(task);
        let ghost mid = *self;
        proof {
            assert(mid.keys().last() == key);
            lemma_index_of_unique(mid.keys(), mid.keys().len() - 1);
            assert(mid.contains(key));
            assert(mid.tasks()[mid.keys().len() - 1] == task);
        }
        let outcome = self.wake(key);
        let ghost polled = outcome@->Some_0;
        proof {
            let i = mid.keys().len() - 1;
            assert(mid.keys().remove(i) =~= old(self).keys());
            assert(mid.tasks().remove(i) =~= old(self).tasks());
            assert(mid.tasks().update(i, polled) =~= old(self).tasks().push(polled));
        }
        (key, Ghost(polled))
    }

    /// Drain the registry and poll every task that was registered when the
    /// call began, exactly once each, in ascending key order; reinsert, under
    /// its old key, exactly each task whose poll reported "still suspended".
    /// Afterwards no registered key is new, and every registered task is one
    /// that was just polled and found still suspended. The returned ghost
    /// sequence holds the state each polled task was left in, one per old
    /// entry in key order: the registry afterwards is exactly the incomplete
    /// states of that sweep, under their old keys
    /// (`lemma_wake_all_keeps_exactly_pending` turns this into a per-key iff).
    pub fn wake_all(&mut self) -> (r: Ghost<Seq<T>>)
        requires
            old(self).wf(),
        ensures
            final(self).wf(),
            final(self).next_key() == old(self).next_key(),
            final(self).count() <= old(self).count(),
            forall|k: u64| #[trigger] final(self).contains(k) ==> old(self).contains(k),
            forall|j: int| 0 <= j < final(self).tasks().len()
                ==> !(#[trigger] final(self).tasks()[j]).complete(),
            r@.len() == old(self).count(),
            forall|i: int| 0 <= i < r@.len()
                ==> T::one_poll(old(self).tasks()[i], #[trigger] r@[i]),
            final(self).keys() == surviving_keys(old(self).keys(), r@),
            final(self).tasks() == surviving_tasks(old(self).keys(), r@),
    {
        let mut kept: Vec<Entry<T>> = Vec::new();
        let ghost mut polled: Seq<T> = Seq::empty();
        proof {
            assert(old(self).entries@.skip(0) =~= old(self).entries@);
            assert(kept@.map_values(|e: Entry<T>| e.key)
                =~= surviving_keys(old(self).keys().take(0), polled));
            assert(kept@.map_values(|e: Entry<T>| e.task)
                =~= surviving_tasks(old(self).keys().take(0), polled));
        }
        while self.entries.len() > 0
            invariant
                old(self).wf(),
                self.next_key() == old(self).next_key(),
                polled.len() <= old(self).entries@.len(),
                self.entries@ == old(self).entries@.skip(polled.len() as int),
                kept@.map_values(|e: Entry<T>| e.key)
                    == surviving_keys(old(self).keys().take(polled.len() as int), polled),
                kept@.map_values(|e: Entry<T>| e.task)
                    == surviving_tasks(old(self).keys().take(polled.len() as int), polled),
                strictly_ascending(kept@.map_values(|e: Entry<T>| e.key)),
                forall|j: int| 0 <= j < kept@.len()
                    ==> old(self).keys().take(polled.len() as int).contains(#[trigger] kept@[j].key),
                forall|j: int| 0 <= j < kept@.len() ==> !(#[trigger] kept@[j]).task.complete(),
                kept@.len() <= polled.len(),
                forall|j: int| 0 <= j < polled.len()
                    ==> T::one_poll(old(self).tasks()[j], #[trigger] polled[j]),
            decreases self.entries@.len(),
        {
            let ghost p = polled.len() as int;
            let ghost pre_keys = old(self).keys().take(p);
            let ghost pre_kept = kept@;
            let mut entry = self.entries.remove(0);
            let ghost pre_task = entry.task;
            proof {
                assert(entry == old(self).entries@[p]);
                assert(entry.key == old(self).keys()[p]);
                assert(pre_task == old(self).tasks()[p]);
                assert(self.entries@ =~= old(self).entries@.skip(p + 1));
            }
            let entry_key = entry.key;
            let pending = Self::poll_task(&mut entry.task, entry_key, TaskWake::new(entry_key));
            let ghost pre_polled = polled;
            proof {
                polled = polled.push(entry.task);
                assert(old(self).keys().take(p + 1).drop_last() =~= pre_keys);
                assert(old(self).keys().take(p + 1).last() == old(self).keys()[p]);
                assert(polled.drop_last() =~= pre_polled);
                assert(polled.last() == entry.task);
            }
            if pending {
                kept.push(entry);
                proof {
                    let mk = kept@.map_values(|e: Entry<T>| e.key);
                    let pre_mk = pre_kept.map_values(|e: Entry<T>| e.key);
                    assert(mk =~= pre_mk.push(old(self).keys()[p]));
                    assert(kept@.map_values(|e: Entry<T>| e.task)
                        =~= pre_kept.map_values(|e: Entry<T>| e.task).push(polled.last()));
                    assert forall|a: int, b: int|
                        #![trigger mk[a], mk[b]]
                        0 <= a < b < mk.len() implies mk[a] < mk[b] by {
                        if b < mk.len() - 1 {
                            assert(mk[a] == pre_mk[a]);
                            assert(mk[b] == pre_mk[b]);
                            assert(pre_mk[a] < pre_mk[b]);
                        } else {
                            assert(mk[a] == pre_kept[a].key);
                            assert(mk[b] == old(self).keys()[p]);
                            assert(pre_keys.contains(pre_kept[a].key));
                            let m = choose|m: int|
                                0 <= m < pre_keys.len() && pre_keys[m] == pre_kept[a].key;
                            assert(pre_keys[m] == old(self).keys()[m]);
                            assert(old(self).keys()[m] < old(self).keys()[p]);
                        }
                    }
                    assert(strictly_ascending(mk));
                    assert forall|j: int| 0 <= j < kept@.len()
                        implies old(self).keys().take(p + 1).contains(#[trigger] kept@[j].key) by {
                        if j < kept@.len() - 1 {
                            assert(kept@[j] == pre_kept[j]);
                            assert(pre_keys.contains(pre_kept[j].key));
                            let m = choose|m: int|
                                0 <= m < pre_keys.len() && pre_keys[m] == pre_kept[j].key;
                            assert(old(self).keys().take(p + 1)[m] == kept@[j].key);
                        } else {
                            assert(kept@[j].key == old(self).keys()[p]);
                            assert(old(self).keys().take(p + 1)[p] == kept@[j].key);
                        }
                    }
                }
            } else {
                proof {
                    assert forall|j: int| 0 <= j < kept@.len()
                        implies old(self).keys().take(p + 1).contains(#[trigger] kept@[j].key) by {
                        assert(pre_keys.contains(kept@[j].key));
                        let m = choose|m: int|
                            0 <= m < pre_keys.len() && pre_keys[m] == kept@[j].key;
                        assert(old(self).keys().take(p + 1)[m] == kept@[j].key);
                    }
                }
            }
        }
        self.entries = kept;
        proof {
            assert(old(self).keys().take(old(self).keys().len() as int) =~= old(self).keys());
            assert(polled.len() == old(self).count());
            assert(self.keys() == surviving_keys(old(self).keys(), polled));
            assert(self.tasks() == surviving_tasks(old(self).keys(), polled));
            assert forall|k: u64| #[trigger] self.contains(k) implies old(self).contains(k) by {
                let j = choose|j: int| 0 <= j < self.keys().len() && self.keys()[j] == k;
                assert(self.entries@[j].key == k);
                assert(old(self).keys().take(old(self).keys().len() as int).contains(k));
            }
            assert forall|j: int| 0 <= j < self.keys().len()
                implies #[trigger] self.keys()[j] < self.next_key() by {
                assert(old(self).keys().take(old(self).keys().len() as int)
                    .contains(self.entries@[j].key));
                let m = choose|m: int|
                    0 <= m < old(self).keys().len() && old(self).keys()[m] == self.keys()[j];
            }
        }
        Ghost(polled)
    }

    /// Advance one computation that has been taken out of the registry by one
    /// step and report whether it is still suspended. `wake` must be a fresh
    /// token carrying `key`, the key of this computation's registry entry,
    /// because the computation may keep the token and signal it, and the
    /// signal asks the executor to poll the entry under the token's key.
    fn poll_task(task: &mut T, key: u64, wake: TaskWake) -> (pending: bool)
        requires
            wake.key() == key,
        ensures
            pending == !final(task).complete(),
            T::one_poll(*old(task), *final(task)),
    {
        task.poll(wake)
    }
}

/// The keys that stay registered after one `wake_all` sweep over the tasks
/// under `keys`, when the sweep leaves the polled tasks in the states listed
/// in `polled` (one state per key, in key order): exactly the keys whose
/// polled task is not complete, in their original order.
pub open spec fn surviving_keys<T: Computation>(keys: Seq<u64>, polled: Seq<T>) -> Seq<u64>
    recommends
        keys.len() == polled.len(),
    decreases keys.len(),
{
    if keys.len() == 0 {
        Seq::empty()
    } else if polled.last().complete() {
        surviving_keys(keys.drop_last(), polled.drop_last())
    } else {
        surviving_keys(keys.drop_last(), polled.drop_last()).push(keys.last())
    }
}

/// The polled task states that stay registered after one `wake_all` sweep,
/// parallel to `surviving_keys`.
pub open spec fn surviving_tasks<T: Computation>(keys: Seq<u64>, polled: Seq<T>) -> Seq<T>
    recommends
        keys.len() == polled.len(),
    decreases keys.len(),
{
    if keys.len() == 0 {
        Seq::empty()
    } else if polled.last().complete() {
        surviving_tasks(keys.drop_last(), polled.drop_last())
    } else {
        surviving_tasks(keys.drop_last(), polled.drop_last()).push(polled.last())
    }
}

/// Every key surviving a `wake_all` sweep was registered before it.
proof fn lemma_surviving_keys_subset<T: Computation>(keys: Seq<u64>, polled: Seq<T>)
    requires
        keys.len() == polled.len(),
    ensures
        forall|k: u64| #[trigger] surviving_keys(keys, polled).contains(k) ==> keys.contains(k),
    decreases keys.len(),
{
    if keys.len() > 0 {
        let keysp = keys.drop_last();
        let polledp = polled.drop_last();
        lemma_surviving_keys_subset(keysp, polledp);
        let s = surviving_keys(keys, polled);
        let sp = surviving_keys(keysp, polledp);
        assert forall|k: u64| #[trigger] s.contains(k) implies keys.contains(k) by {
            if polled.last().complete() {
                assert(sp.contains(k));
                let m = choose|m: int| 0 <= m < keysp.len() && keysp[m] == k;
                assert(keys[m] == k);
            } else {
                let j = choose|j: int| 0 <= j < s.len() && s[j] == k;
                if j < sp.len() {
                    assert(sp[j] == k);
                    assert(sp.contains(k));
                    let m = choose|m: int| 0 <= m < keysp.len() && keysp[m] == k;
                    assert(keys[m] == k);
                } else {
                    assert(s[j] == keys.last());
                    assert(keys[keys.len() - 1] == k);
                }
            }
        }
    }
}

/// Law: one `wake_all` sweep keeps exactly the still-suspended tasks. Take
/// the registered keys and, for each, the state its task was left in by the
/// sweep's one poll of it (the witness sequence in the `wake_all` contract):
/// a key stays registered exactly when its polled task had not completed —
/// every task reported "finished" is gone, every task reported "still
/// suspended" is still there.
pub proof fn lemma_wake_all_keeps_exactly_pending<T: Computation>(keys: Seq<u64>, polled: Seq<T>)
    requires
        strictly_ascending(keys),
        keys.len() == polled.len(),
    ensures
        forall|i: int| 0 <= i < keys.len()
            ==> (#[trigger] surviving_keys(keys, polled).contains(keys[i])
                <==> !polled[i].complete()),
    decreases keys.len(),
{
    if keys.len() > 0 {
        let keysp = keys.drop_last();
        let polledp = polled.drop_last();
        assert(strictly_ascending(keysp)) by {
            assert forall|a: int, b: int| #![trigger keysp[a], keysp[b]]
                0 <= a < b < keysp.len() implies keysp[a] < keysp[b] by {
                assert(keysp[a] == keys[a]);
                assert(keysp[b] == keys[b]);
            }
        }
        lemma_wake_all_keeps_exactly_pending(keysp, polledp);
        lemma_surviving_keys_subset(keysp, polledp);
        let s = surviving_keys(keys, polled);
        let sp = surviving_keys(keysp, polledp);
        let last = keys.last();
        assert forall|i: int| 0 <= i < keys.len()
            implies (#[trigger] s.contains(keys[i]) <==> !polled[i].complete()) by {
            if i == keys.len() - 1 {
                if polled.last().complete() {
                    assert(s == sp);
                    assert forall|j: int| 0 <= j < keysp.len() implies keysp[j] != last by {
                        assert(keysp[j] == keys[j]);
                        assert(keys[j] < keys[keys.len() - 1]);
                    }
                    if s.contains(last) {
                        assert(keysp.contains(last));
                        let m = choose|m: int| 0 <= m < keysp.len() && keysp[m] == last;
                    }
                } else {
                    assert(s == sp.push(last));
                    assert(s[s.len() - 1] == last);
                    assert(s.contains(last));
                }
            } else {
                assert(keysp[i] == keys[i]);
                assert(polledp[i] == polled[i]);
                assert(sp.contains(keysp[i]) <==> !polledp[i].complete());
                if polled.last().complete() {
                    assert(s == sp);
                } else {
                    assert(s == sp.push(last));
                    assert(keys[i] < last);
                    if sp.contains(keys[i]) {
                        let j = choose|j: int| 0 <= j < sp.len() && sp[j] == keys[i];
                        assert(s[j] == keys[i]);
                        assert(s.contains(keys[i]));
                    }
                    if s.contains(keys[i]) {
                        let j = choose|j: int| 0 <= j < s.len() && s[j] == keys[i];
                        assert(j < sp.len());
                        assert(sp[j] == keys[i]);
                        assert(sp.contains(keys[i]));
                    }
                }
            }
        }
    }
}

/// What one wake request for `key` does to the registry. `polled` is the
/// outcome: `None` when no task was registered under `key` — the request is
/// then exactly a no-op, since wake requests may race with completion — and
/// otherwise the state the task was left in by the one poll the request gave
/// it. A task left complete ("finished") is removed for good and the registry
/// shrinks by one; a task left incomplete ("still suspended") sits in its old
/// place under the same key, in its polled state, with every other entry
/// untouched.
pub open spec fn wake_transition<T: Computation>(
    pre: ManualExecutor<T>,
    post: ManualExecutor<T>,
    key: u64,
    polled: Option<T>,
) -> bool {
    &&& post.next_key() == pre.next_key()
    &&& forall|k: u64| k != key ==> (#[trigger] post.contains(k) <==> pre.contains(k))
    &&& !pre.contains(key) ==> (post.keys() == pre.keys() && post.tasks() == pre.tasks()
        && polled is None)
    &&& pre.contains(key) ==> ({
        let i = pre.keys().index_of(key);
        polled matches Some(t)
            && T::one_poll(pre.tasks()[i], t)
            && (t.complete() ==> (post.keys() == pre.keys().remove(i)
                && post.tasks() == pre.tasks().remove(i)))
            && (!t.complete() ==> (post.keys() == pre.keys()
                && post.tasks() == pre.tasks().update(i, t)))
    })
}

/// Law: duplicate wake signals are idempotent. Suppose a wake request for
/// `key` found the task registered and its one poll reported "finished"
/// (left it complete), so the task was removed. The key is then no longer
/// registered, and it is never issued again, so any later wake request for
/// the same key — a duplicate signal of the same wake token included — finds
/// nothing and leaves the registry exactly unchanged.
pub proof fn lemma_duplicate_signal_noop<T: Computation>(
    pre: ManualExecutor<T>,
    mid: ManualExecutor<T>,
    post: ManualExecutor<T>,
    key: u64,
    first: T,
    second: Option<T>,
)
    requires
        pre.wf(),
        pre.contains(key),
        wake_transition(pre, mid, key, Some(first)),
        first.complete(),
        wake_transition(mid, post, key, second),
    ensures
        post.keys() == mid.keys(),
        post.tasks() == mid.tasks(),
        second is None,
{
    let i = pre.keys().index_of(key);
    assert(0 <= i < pre.keys().len() && pre.keys()[i] == key);
    assert(mid.keys() == pre.keys().remove(i));
    lemma_removed_key_absent(pre.keys(), i);
    assert(!mid.contains(key));
}

} // verus!
