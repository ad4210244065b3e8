//! The cache engine: an ordered store from erased keys to entries, and the protocol that
//! deduplicates fetches, backs off on failure, tracks subscribers and invalidates entries.
//!
//! The engine makes decisions and changes state; it performs no I/O. Each operation returns what
//! its caller has to do next: start a fetch, and which subscribers to hand the entry's value to.
use crate::invalidate::Invalidatable;
use crate::key::{key_lt, lemma_key_order, ErasedKey, KeyView};
use crate::value::{same_value, Dynamic, Value};
use vstd::prelude::*;

verus! {

/// The delay before the first retry after a failure, in nanoseconds (100 ms).
pub const DELAY_INITIAL: u64 = 100_000_000;

/// The delay times 3/2, the half rounded up so that every positive delay grows.
///
/// Delays are counted in nanoseconds in a `u64`, so growth stops at `u64::MAX` ns (about 584
/// years), which the initial delay reaches after some 65 consecutive failures; from there the
/// delay stays at that value.
pub open spec fn grown(d: u64) -> u64 {
    if d + (d - d / 2) > u64::MAX {
        u64::MAX
    } else {
        (d + (d - d / 2)) as u64
    }
}

/// The retry delay after one more failure.
pub open spec fn next_delay(d: Option<u64>) -> Option<u64> {
    match d {
        None => Some(DELAY_INITIAL),
        Some(c) => Some(grown(c)),
    }
}

/// The subscriber list with `h` added, unless it is there already.
pub open spec fn with_handle(s: Seq<u64>, h: u64) -> Seq<u64> {
    if s.contains(h) {
        s
    } else {
        s.push(h)
    }
}

/// The subscriber list with `h` taken out.
pub open spec fn without_handle(s: Seq<u64>, h: u64) -> Seq<u64> {
    s.filter(other_than(h))
}

/// The state of an entry.
pub struct EntryView {
    pub delay: Option<u64>,
    pub progress: bool,
    pub value: (bool, Option<Dynamic>),
    pub subscriptions: Seq<u64>,
}

/// A change made to an entry.
pub enum Change {
    /// A subscriber registers; a fetch starts if the entry needs one.
    Subscribe(u64),
    /// A subscriber leaves.
    Unsubscribe(u64),
    /// A fetch answered with a payload.
    Succeed(Dynamic),
    /// A fetch failed.
    Fail,
    /// The entry's value became stale.
    Invalidate,
}

impl Change {
    /// A copy of a change that carries no payload.
    pub fn copy_of(&self) -> (r: Change)
        requires
            !(self is Succeed),
        ensures
            r == *self,
    {
        match self {
            Change::Subscribe(h) => Change::Subscribe(*h),
            Change::Unsubscribe(h) => Change::Unsubscribe(*h),
            Change::Fail => Change::Fail,
            _ => Change::Invalidate,
        }
    }
}

/// Whether an entry needs a fetch: its value is stale or missing and none is running.
pub open spec fn needs_fetch_spec(e: EntryView) -> bool {
    !e.value.0 && !e.progress
}

/// Whether a subscription to the entry `e` (absent: `None`) starts a fetch.
pub open spec fn wants_fetch(e: Option<EntryView>) -> bool {
    match e {
        None => true,
        Some(e) => needs_fetch_spec(e),
    }
}

/// An entry after a change.
pub open spec fn changed(e: EntryView, c: Change) -> EntryView {
    match c {
        Change::Subscribe(h) => EntryView {
            progress: e.progress || needs_fetch_spec(e),
            subscriptions: with_handle(e.subscriptions, h),
            ..e
        },
        Change::Unsubscribe(h) => EntryView {
            subscriptions: without_handle(e.subscriptions, h),
            ..e
        },
        Change::Succeed(v) => EntryView { delay: None, progress: false, value: (true, Some(v)), ..e },
        Change::Fail => EntryView { delay: next_delay(e.delay), progress: false, ..e },
        Change::Invalidate => EntryView { value: (false, e.value.1), ..e },
    }
}

/// The entry that a first subscription creates: nothing fetched yet, a fetch running.
pub open spec fn created(h: u64) -> EntryView {
    EntryView { delay: None, progress: true, value: (false, None), subscriptions: seq![h] }
}

/// An entry after a subscription of `h`; `None` when there was no entry.
pub open spec fn subscribed(e: Option<EntryView>, h: u64) -> EntryView {
    match e {
        None => created(h),
        Some(e) => changed(e, Change::Subscribe(h)),
    }
}

/// The per-key state of the cache.
#[derive(Clone, Debug)]
pub struct Entry {
    /// Delay to wait before the next fetch, in nanoseconds.
    pub delay: Option<u64>,
    /// Whether a fetch is running.
    pub progress: bool,
    /// The current value.
    pub value: Value<Dynamic>,
    /// The handles of the subscribers.
    pub subscriptions: Vec<u64>,
}

impl View for Entry {
    type V = EntryView;

    open spec fn view(&self) -> EntryView {
        EntryView {
            delay: self.delay,
            progress: self.progress,
            value: self.value@,
            subscriptions: self.subscriptions@,
        }
    }
}

/// A well-formed entry state: a value without data is not valid, no subscriber is listed
/// twice, and a retry delay is never below the initial one.
pub open spec fn entry_wf(e: EntryView) -> bool {
    &&& (e.value.1.is_none() ==> !e.value.0)
    &&& e.subscriptions.no_duplicates()
    &&& (e.delay matches Some(d) ==> d >= DELAY_INITIAL)
}

/// The filter that keeps every handle but `h`.
pub open spec fn other_than(h: u64) -> spec_fn(u64) -> bool {
    |x: u64| x != h
}

proof fn lemma_filter(s: Seq<u64>, h: u64)
    requires
        s.no_duplicates(),
    ensures
        s.filter(other_than(h)).no_duplicates(),
        forall|x: u64| s.filter(other_than(h)).contains(x) <==> (s.contains(x) && x != h),
    decreases s.len(),
{
    reveal(Seq::filter);
    let p = other_than(h);
    if s.len() > 0 {
        let rest = s.drop_last();
        assert(rest.no_duplicates()) by {
            assert forall|i: int, j: int| 0 <= i < rest.len() && 0 <= j < rest.len() && i != j
                implies rest[i] != rest[j] by {
                assert(rest[i] == s[i] && rest[j] == s[j]);
            }
        }
        lemma_filter(rest, h);
        let f = rest.filter(p);
        assert forall|x: u64| s.contains(x) <==> (rest.contains(x) || x == s.last()) by {
            if s.contains(x) {
                let k = choose|k: int| 0 <= k < s.len() && s[k] == x;
                if k < s.len() - 1 {
                    assert(rest[k] == x);
                }
            }
            if rest.contains(x) {
                let k = choose|k: int| 0 <= k < rest.len() && rest[k] == x;
                assert(s[k] == x);
            }
        }
        assert(!rest.contains(s.last())) by {
            if rest.contains(s.last()) {
                let k = choose|k: int| 0 <= k < rest.len() && rest[k] == s.last();
                assert(s[k] == rest[k]);
            }
        }
        if p(s.last()) {
            let g = f.push(s.last());
            assert(s.filter(p) == g);
            assert forall|x: u64| g.contains(x) <==> (f.contains(x) || x == s.last()) by {
                if g.contains(x) {
                    let k = choose|k: int| 0 <= k < g.len() && g[k] == x;
                    if k < f.len() {
                        assert(f[k] == x);
                    }
                }
                if f.contains(x) {
                    let k = choose|k: int| 0 <= k < f.len() && f[k] == x;
                    assert(g[k] == x);
                }
                if x == s.last() {
                    assert(g[f.len() as int] == x);
                }
            }
            assert forall|i: int, j: int| 0 <= i < g.len() && 0 <= j < g.len() && i != j
                implies g[i] != g[j] by {
                if i == f.len() as int {
                    assert(g[j] == f[j]);
                    assert(f.contains(g[j]));
                } else if j == f.len() as int {
                    assert(g[i] == f[i]);
                    assert(f.contains(g[i]));
                } else {
                    assert(g[i] == f[i] && g[j] == f[j]);
                }
            }
        }
    } else {
        assert forall|x: u64| !s.contains(x) by {}
    }
}

/// Every change keeps an entry well formed.
pub proof fn lemma_changed_wf(e: EntryView, c: Change)
    requires
        entry_wf(e),
    ensures
        entry_wf(changed(e, c)),
{
    match c {
        Change::Unsubscribe(h) => {
            lemma_filter(e.subscriptions, h);
        },
        Change::Subscribe(h) => {
            if !e.subscriptions.contains(h) {
                let s = e.subscriptions.push(h);
                assert forall|i: int, j: int| 0 <= i < s.len() && 0 <= j < s.len() && i != j
                    implies s[i] != s[j] by {
                    if i == e.subscriptions.len() as int {
                        assert(s[j] == e.subscriptions[j]);
                    } else if j == e.subscriptions.len() as int {
                        assert(e.subscriptions[i] == s[i]);
                    }
                }
            }
        },
        _ => {},
    }
}

impl Entry {
    pub open spec fn wf(&self) -> bool {
        entry_wf(self@)
    }

    /// The handles to hand the entry's current value to: every subscriber, once each.
    pub fn broadcast(&self) -> (r: Vec<u64>)
        ensures
            r@ == self@.subscriptions,
    {
        let mut out: Vec<u64> = Vec::new();
        let mut i: usize = 0;
        while i < self.subscriptions.len()
            invariant
                i <= self.subscriptions.len(),
                out@ == self.subscriptions@.subrange(0, i as int),
            decreases self.subscriptions.len() - i,
        {
            out.push(self.subscriptions[i]);
            i = i + 1;
            assert(out@ =~= self.subscriptions@.subrange(0, i as int));
        }
        assert(out@ =~= self.subscriptions@);
        out
    }

    /// Adds a subscriber; subscribing twice is the same as once.
    pub fn subscribe(&mut self, handle: u64)
        ensures
            final(self)@ == (EntryView { subscriptions: with_handle(old(self)@.subscriptions, handle), ..old(self)@ }),
    {
        let mut i: usize = 0;
        while i < self.subscriptions.len()
            invariant
                i <= self.subscriptions.len(),
                forall|j: int| 0 <= j < i ==> self.subscriptions@[j] != handle,
            decreases self.subscriptions.len() - i,
        {
            if self.subscriptions[i] == handle {
                assert(self.subscriptions@.contains(handle)) by {
                    assert(self.subscriptions@[i as int] == handle);
                }
                return;
            }
            i = i + 1;
        }
        self.subscriptions.push(handle);
    }

    /// Removes a subscriber, if it is there.
    pub fn unsubscribe(&mut self, handle: u64)
        ensures
            final(self)@ == (EntryView { subscriptions: without_handle(old(self)@.subscriptions, handle), ..old(self)@ }),
    {
        let ghost s = self.subscriptions@;
        let ghost p = other_than(handle);
        let mut kept: Vec<u64> = Vec::new();
        let mut i: usize = 0;
        while i < self.subscriptions.len()
            invariant
                s == self.subscriptions@,
                p == other_than(handle),
                i <= s.len(),
                kept@ == s.subrange(0, i as int).filter(p),
            decreases self.subscriptions.len() - i,
        {
            let h = self.subscriptions[i];
            proof {
                assert(s.subrange(0, i + 1) =~= s.subrange(0, i as int).push(h));
                s.subrange(0, i as int).lemma_filter_push(h, p);
            }
            if h != handle {
                kept.push(h);
            }
            i = i + 1;
        }
        assert(s.subrange(0, s.len() as int) =~= s);
        self.subscriptions = kept;
    }

    /// Sets the delay for the next fetch after a failure: the initial delay after a first
    /// failure, half as much again after each further one.
    pub fn delay_update(&mut self)
        ensures
            final(self)@ == (EntryView { delay: next_delay(old(self)@.delay), ..old(self)@ }),
    {
        self.delay = match self.delay {
            Some(current) => Some(current.saturating_add(current - current / 2)),
            None => Some(DELAY_INITIAL),
        };
    }

    /// Clears the retry delay.
    pub fn delay_reset(&mut self)
        ensures
            final(self)@ == (EntryView { delay: None, ..old(self)@ }),
    {
        self.delay = None;
    }

    /// Whether the entry needs a fetch: its value is not valid and no fetch is running.
    pub fn needs_fetch(&self) -> (r: bool)
        ensures
            r == needs_fetch_spec(self@),
    {
        !self.value.valid() && !self.progress
    }

    /// Applies a change.
    pub fn apply(&mut self, change: Change)
        ensures
            final(self)@ == changed(old(self)@, change),
    {
        match change {
            Change::Subscribe(h) => {
                if self.needs_fetch() {
                    self.progress = true;
                }
                self.subscribe(h);
            },
            Change::Unsubscribe(h) => {
                self.unsubscribe(h);
            },
            Change::Succeed(v) => {
                self.delay_reset();
                self.value = Value::new(v);
                self.progress = false;
            },
            Change::Fail => {
                self.delay_update();
                self.progress = false;
            },
            Change::Invalidate => {
                self.value.invalidate();
            },
        }
    }
}

/// An ordered store from erased keys to entries, held in a vector sorted by key.
pub struct BTreeCache {
    pub entries: Vec<(ErasedKey, Entry)>,
}

impl BTreeCache {
    /// The keys, in store order.
    pub open spec fn keys(&self) -> Seq<KeyView> {
        self.entries@.map_values(|p: (ErasedKey, Entry)| p.0@)
    }

    /// Keys strictly increasing, entries well formed.
    pub open spec fn wf(&self) -> bool {
        &&& forall|i: int, j: int|
            0 <= i < j < self.entries@.len() ==> key_lt(#[trigger] self.keys()[i], #[trigger] self.keys()[j])
        &&& forall|i: int| 0 <= i < self.entries@.len() ==> entry_wf(#[trigger] self.entries@[i].1@)
    }

    pub open spec fn has(&self, k: KeyView) -> bool {
        self.keys().contains(k)
    }

    /// Where `k` stands, when it is there.
    pub open spec fn slot(&self, k: KeyView) -> int {
        choose|i: int| 0 <= i < self.keys().len() && self.keys()[i] == k
    }

    /// The entry stored under `k`.
    pub open spec fn lookup(&self, k: KeyView) -> Option<EntryView> {
        if self.has(k) {
            Some(self.entries@[self.slot(k)].1@)
        } else {
            None
        }
    }

    /// In a well-formed store each key stands at one place.
    pub proof fn lemma_slot(&self, i: int)
        requires
            self.wf(),
            0 <= i < self.entries@.len(),
        ensures
            self.has(self.keys()[i]),
            self.slot(self.keys()[i]) == i,
            self.lookup(self.keys()[i]) == Some(self.entries@[i].1@),
    {
        let k = self.keys()[i];
        assert(self.keys().len() == self.entries@.len());
        assert(self.has(k));
        let j = self.slot(k);
        if j != i {
            lemma_key_order(k, k, k);
            if j < i {
                assert(key_lt(self.keys()[j], self.keys()[i]));
            } else {
                assert(key_lt(self.keys()[i], self.keys()[j]));
            }
        }
    }

    /// An empty store.
    pub fn new() -> (r: BTreeCache)
        ensures
            r.wf(),
            forall|k: KeyView| r.lookup(k) is None,
    {
        BTreeCache { entries: Vec::new() }
    }

    /// Where `key` stands, if it is there.
    pub fn find(&self, key: &ErasedKey) -> (r: Option<usize>)
        requires
            self.wf(),
        ensures
            r is None <==> !self.has(key@),
            r matches Some(i) ==> i < self.entries@.len() && self.keys()[i as int] == key@ && self.slot(key@) == i,
    {
        let mut i: usize = 0;
        while i < self.entries.len()
            invariant
                self.wf(),
                i <= self.entries@.len(),
                forall|j: int| 0 <= j < i ==> self.keys()[j] != key@,
            decreases self.entries.len() - i,
        {
            if self.entries[i].0.equals(key) {
                proof {
                    self.lemma_slot(i as int);
                }
                return Some(i);
            }
            i = i + 1;
        }
        None
    }

    /// Stores `entry` under `key`, in place of the entry there before, if any.
    pub fn insert(&mut self, key: ErasedKey, entry: Entry)
        requires
            old(self).wf(),
            entry.wf(),
        ensures
            final(self).wf(),
            final(self).lookup(key@) == Some(entry@),
            forall|k: KeyView| k != key@ ==> final(self).lookup(k) == old(self).lookup(k),
            final(self).entries@.len() == old(self).entries@.len() + if old(self).has(key@) {
                0int
            } else {
                1int
            },
    {
        let ghost old_self = *self;
        let ghost ks = self.keys();
        let mut p: usize = 0;
        while p < self.entries.len() && self.entries[p].0.less_than(&key)
            invariant
                *self == old_self,
                p <= self.entries@.len(),
                ks == self.keys(),
                forall|j: int| 0 <= j < p ==> key_lt(#[trigger] ks[j], key@),
            decreases self.entries.len() - p,
        {
            assert(ks[p as int] == self.entries@[p as int].0@);
            p = p + 1;
        }
        if p < self.entries.len() && self.entries[p].0.equals(&key) {
            let _ = self.entries.remove(p);
            self.entries.insert(p, (key, entry));
            proof {
                assert(self.keys() =~= ks);
                assert forall|k: KeyView| k != key@ implies self.lookup(k) == old_self.lookup(k) by {
                    if old_self.has(k) {
                        old_self.lemma_slot(old_self.slot(k));
                    }
                }
                self.lemma_slot(p as int);
            }
        } else {
            let ghost kv = key@;
            self.entries.insert(p, (key, entry));
            proof {
                let nk = self.keys();
                assert(nk =~= ks.insert(p as int, kv));
                if p < ks.len() {
                    lemma_key_order(ks[p as int], kv, kv);
                    assert(key_lt(kv, ks[p as int]));
                }
                assert forall|i: int, j: int| 0 <= i < j < self.entries@.len() implies key_lt(
                    #[trigger] nk[i],
                    #[trigger] nk[j],
                ) by {
                    if j < p {
                        assert(nk[i] == ks[i] && nk[j] == ks[j]);
                    } else if j == p {
                        assert(nk[i] == ks[i]);
                    } else if i == p {
                        assert(nk[j] == ks[j - 1]);
                        if j - 1 > p {
                            assert(key_lt(ks[p as int], ks[j - 1]));
                            lemma_key_order(kv, ks[p as int], ks[j - 1]);
                        }
                    } else if i < p {
                        assert(nk[i] == ks[i] && nk[j] == ks[j - 1]);
                        assert(key_lt(ks[i], kv));
                        if p < ks.len() {
                            lemma_key_order(ks[i], kv, ks[p as int]);
                            if j - 1 > p {
                                assert(key_lt(ks[p as int], ks[j - 1]));
                                lemma_key_order(ks[i], ks[p as int], ks[j - 1]);
                            }
                        }
                    } else {
                        assert(nk[i] == ks[i - 1] && nk[j] == ks[j - 1]);
                    }
                }
                assert forall|i: int| 0 <= i < self.entries@.len() implies entry_wf(
                    #[trigger] self.entries@[i].1@,
                ) by {
                    if i < p {
                        assert(self.entries@[i] == old_self.entries@[i]);
                    } else if i > p {
                        assert(self.entries@[i] == old_self.entries@[i - 1]);
                    }
                }
                assert(self.wf());
                self.lemma_slot(p as int);
                if old_self.has(kv) {
                    let i = old_self.slot(kv);
                    old_self.lemma_slot(i);
                    lemma_key_order(kv, kv, kv);
                    if i > p {
                        assert(key_lt(ks[p as int], ks[i]));
                        lemma_key_order(kv, ks[p as int], kv);
                    }
                    assert(false);
                }
                assert forall|k: KeyView| k != kv implies self.lookup(k) == old_self.lookup(k) by {
                    if old_self.has(k) {
                        let i = old_self.slot(k);
                        old_self.lemma_slot(i);
                        if i < p {
                            assert(nk[i] == k);
                            self.lemma_slot(i);
                        } else {
                            assert(nk[i + 1] == k);
                            self.lemma_slot(i + 1);
                        }
                    } else if self.has(k) {
                        let m = self.slot(k);
                        if m < p {
                            assert(ks[m] == k);
                        } else if m > p {
                            assert(ks[m - 1] == k);
                        }
                    }
                }
            }
        }
    }

    /// Applies `change` to the entry at position `i`.
    pub fn mutate_at(&mut self, i: usize, change: Change)
        requires
            old(self).wf(),
            i < old(self).entries@.len(),
        ensures
            final(self).wf(),
            final(self).keys() == old(self).keys(),
            final(self).entries@.len() == old(self).entries@.len(),
            final(self).entries@[i as int].1@ == changed(old(self).entries@[i as int].1@, change),
            final(self).entries@[i as int].0 == old(self).entries@[i as int].0,
            forall|j: int| 0 <= j < old(self).entries@.len() && j != i ==> final(self).entries@[j] == old(self).entries@[j],
            final(self).lookup(old(self).keys()[i as int]) == Some(changed(old(self).entries@[i as int].1@, change)),
            forall|k: KeyView| k != old(self).keys()[i as int] ==> final(self).lookup(k) == old(self).lookup(k),
    {
        let ghost old_self = *self;
        let (k, mut e) = self.entries.remove(i);
        proof {
            lemma_changed_wf(e@, change);
        }
        e.apply(change);
        self.entries.insert(i, (k, e));
        proof {
            assert(self.keys() =~= old_self.keys());
            assert forall|j: int| 0 <= j < old_self.entries@.len() && j != i implies self.entries@[j] == old_self.entries@[j] by {}
            assert forall|j: int| 0 <= j < self.entries@.len() implies entry_wf(#[trigger] self.entries@[j].1@) by {
                if j != i {
                    assert(self.entries@[j] == old_self.entries@[j]);
                }
            }
            self.lemma_slot(i as int);
            assert forall|k: KeyView| k != old_self.keys()[i as int] implies self.lookup(k) == old_self.lookup(k) by {
                if old_self.has(k) {
                    old_self.lemma_slot(old_self.slot(k));
                    self.lemma_slot(old_self.slot(k));
                }
            }
        }
    }

    /// Applies `change` to the entry stored under `key`, if there is one; says whether there was.
    pub fn mutate(&mut self, key: &ErasedKey, change: Change) -> (r: bool)
        requires
            old(self).wf(),
        ensures
            final(self).wf(),
            r == old(self).has(key@),
            final(self).keys() == old(self).keys(),
            final(self).lookup(key@) == match old(self).lookup(key@) {
                Some(e) => Some(changed(e, change)),
                None => None,
            },
            forall|k: KeyView| k != key@ ==> final(self).lookup(k) == old(self).lookup(k),
    {
        match self.find(key) {
            Some(i) => {
                proof {
                    self.lemma_slot(i as int);
                }
                self.mutate_at(i, change);
                true
            },
            None => false,
        }
    }

    /// Applies `change` to every entry. A payload cannot be handed to every entry, so `change`
    /// is not a success.
    pub fn mutate_all(&mut self, change: &Change)
        requires
            old(self).wf(),
            !(change is Succeed),
        ensures
            final(self).wf(),
            final(self).keys() == old(self).keys(),
            final(self).entries@.len() == old(self).entries@.len(),
            forall|i: int| 0 <= i < old(self).entries@.len() ==> #[trigger] final(self).entries@[i].1@ == changed(old(self).entries@[i].1@, *change),
    {
        let ghost old_self = *self;
        let mut i: usize = 0;
        while i < self.entries.len()
            invariant
                self.wf(),
                i <= self.entries@.len(),
                self.keys() == old_self.keys(),
                self.entries@.len() == old_self.entries@.len(),
                !(change is Succeed),
                forall|j: int| 0 <= j < i ==> #[trigger] self.entries@[j].1@ == changed(old_self.entries@[j].1@, *change),
                forall|j: int| i <= j < self.entries@.len() ==> #[trigger] self.entries@[j] == old_self.entries@[j],
            decreases self.entries.len() - i,
        {
            self.mutate_at(i, change.copy_of());
            i = i + 1;
        }
    }

    /// The entry stored under `key`.
    pub fn get(&self, key: &ErasedKey) -> (r: Option<&Entry>)
        requires
            self.wf(),
        ensures
            match r {
                Some(e) => self.lookup(key@) == Some(e@),
                None => self.lookup(key@) is None,
            },
    {
        match self.find(key) {
            Some(i) => {
                proof {
                    self.lemma_slot(i as int);
                }
                Some(&self.entries[i].1)
            },
            None => None,
        }
    }
}

/// What the caller of `subscribe` has to do next.
pub struct Subscription {
    /// Hand the entry's value to the new subscriber now.
    pub notify: bool,
    /// Start a fetch for the key.
    pub fetch: bool,
    /// Wait this long, in nanoseconds, before the fetch.
    pub delay: Option<u64>,
}

/// The subscribers to hand an entry's value to after a change: all of them, or nobody when
/// there is no entry.
pub open spec fn recipients(e: Option<EntryView>) -> Seq<u64> {
    match e {
        Some(e) => e.subscriptions,
        None => Seq::empty(),
    }
}

/// An optional entry after a change.
pub open spec fn changed_opt(e: Option<EntryView>, c: Change) -> Option<EntryView> {
    match e {
        Some(e) => Some(changed(e, c)),
        None => None,
    }
}

/// The cache engine.
pub struct Cache {
    pub cache: BTreeCache,
}

impl Cache {
    pub open spec fn wf(&self) -> bool {
        self.cache.wf()
    }

    pub open spec fn lookup(&self, k: KeyView) -> Option<EntryView> {
        self.cache.lookup(k)
    }

    /// An empty cache.
    pub fn new() -> (r: Cache)
        ensures
            r.wf(),
            forall|k: KeyView| r.lookup(k) is None,
    {
        Cache { cache: BTreeCache::new() }
    }

    /// The entry for `key`, without subscribing.
    pub fn get(&self, key: &ErasedKey) -> (r: Option<&Entry>)
        requires
            self.wf(),
        ensures
            match r {
                Some(e) => self.lookup(key@) == Some(e@),
                None => self.lookup(key@) is None,
            },
    {
        self.cache.get(key)
    }

    /// Registers `handle` for `key`. `current` is the value the subscriber holds now.
    ///
    /// A key seen for the first time gets an entry with a fetch running, to start at once. A
    /// known key gets the subscriber added; the subscriber is to be handed the cached value if
    /// it holds another one; and a fetch starts, after the entry's retry delay, only if the
    /// entry needs one. At most one fetch runs for a key.
    pub fn subscribe(&mut self, key: ErasedKey, handle: u64, current: &Value<Dynamic>) -> (r: Subscription)
        requires
            old(self).wf(),
        ensures
            final(self).wf(),
            r.fetch == wants_fetch(old(self).lookup(key@)),
            r.delay == (if r.fetch && old(self).lookup(key@) is Some {
                old(self).lookup(key@)->0.delay
            } else {
                None
            }),
            r.notify == (old(self).lookup(key@) matches Some(e) && !same_value(e.value, current@)),
            final(self).lookup(key@) == Some(subscribed(old(self).lookup(key@), handle)),
            forall|k: KeyView| k != key@ ==> final(self).lookup(k) == old(self).lookup(k),
    {
        match self.cache.find(&key) {
            None => {
                let mut subscriptions: Vec<u64> = Vec::new();
                subscriptions.push(handle);
                let entry = Entry { delay: None, progress: true, value: Value::empty(), subscriptions };
                proof {
                    assert(entry@.subscriptions =~= seq![handle]);
                    assert(entry@ == created(handle));
                }
                self.cache.insert(key, entry);
                Subscription { notify: false, fetch: true, delay: None }
            },
            Some(i) => {
                proof {
                    self.cache.lemma_slot(i as int);
                }
                let fetch = self.cache.entries[i].1.needs_fetch();
                let notify = !self.cache.entries[i].1.value.same_as(current);
                let delay = if fetch {
                    self.cache.entries[i].1.delay
                } else {
                    None
                };
                self.cache.mutate_at(i, Change::Subscribe(handle));
                Subscription { notify, fetch, delay }
            },
        }
    }

    fn change_and_broadcast(&mut self, key: &ErasedKey, change: Change) -> (r: Vec<u64>)
        requires
            old(self).wf(),
        ensures
            final(self).wf(),
            final(self).lookup(key@) == changed_opt(old(self).lookup(key@), change),
            forall|k: KeyView| k != key@ ==> final(self).lookup(k) == old(self).lookup(k),
            r@ == recipients(final(self).lookup(key@)),
    {
        if self.cache.mutate(key, change) {
            match self.cache.get(key) {
                Some(entry) => entry.broadcast(),
                None => Vec::new(),
            }
        } else {
            Vec::new()
        }
    }

    /// Records the answer of a fetch for `key`: the value becomes valid, the retry delay is
    /// cleared, the fetch is over. Returns the subscribers to hand the new value to.
    pub fn cache(&mut self, key: &ErasedKey, value: Dynamic) -> (r: Vec<u64>)
        requires
            old(self).wf(),
        ensures
            final(self).wf(),
            final(self).lookup(key@) == changed_opt(old(self).lookup(key@), Change::Succeed(value)),
            forall|k: KeyView| k != key@ ==> final(self).lookup(k) == old(self).lookup(k),
            r@ == recipients(final(self).lookup(key@)),
    {
        self.change_and_broadcast(key, Change::Succeed(value))
    }

    /// Records a failed fetch for `key`: the retry delay grows, the fetch is over, the value
    /// stays. Returns the subscribers to hand the value to.
    pub fn failure(&mut self, key: &ErasedKey) -> (r: Vec<u64>)
        requires
            old(self).wf(),
        ensures
            final(self).wf(),
            final(self).lookup(key@) == changed_opt(old(self).lookup(key@), Change::Fail),
            forall|k: KeyView| k != key@ ==> final(self).lookup(k) == old(self).lookup(k),
            r@ == recipients(final(self).lookup(key@)),
    {
        self.change_and_broadcast(key, Change::Fail)
    }

    /// Removes `handle` from the subscribers of `key`. The entry stays.
    pub fn unsubscribe(&mut self, key: &ErasedKey, handle: u64)
        requires
            old(self).wf(),
        ensures
            final(self).wf(),
            final(self).lookup(key@) == changed_opt(old(self).lookup(key@), Change::Unsubscribe(handle)),
            forall|k: KeyView| k != key@ ==> final(self).lookup(k) == old(self).lookup(k),
    {
        let _ = self.cache.mutate(key, Change::Unsubscribe(handle));
    }

    /// Marks the value of `key` stale. Returns the subscribers to hand it to.
    pub fn invalidate_key(&mut self, key: &ErasedKey) -> (r: Vec<u64>)
        requires
            old(self).wf(),
        ensures
            final(self).wf(),
            final(self).lookup(key@) == changed_opt(old(self).lookup(key@), Change::Invalidate),
            forall|k: KeyView| k != key@ ==> final(self).lookup(k) == old(self).lookup(k),
            r@ == recipients(final(self).lookup(key@)),
    {
        self.change_and_broadcast(key, Change::Invalidate)
    }

    /// Marks stale the value of every key that `mutation` invalidates. Returns the positions of
    /// those entries, in key order, whose subscribers are to be handed the value.
    pub fn invalidate<M>(&mut self, mutation: &M) -> (r: Vec<usize>)
        where ErasedKey: Invalidatable<M>,
        requires
            old(self).wf(),
        ensures
            final(self).wf(),
            final(self).cache.keys() == old(self).cache.keys(),
            final(self).cache.entries@.len() == old(self).cache.entries@.len(),
            forall|i: int| 0 <= i < old(self).cache.entries@.len() ==> #[trigger] final(self).cache.entries@[i].1@ == if old(self).cache.entries@[i].0.invalidated_by_spec(mutation) {
                changed(old(self).cache.entries@[i].1@, Change::Invalidate)
            } else {
                old(self).cache.entries@[i].1@
            },
            forall|k: KeyView| #[trigger] final(self).lookup(k) == if old(self).cache.has(k)
                && old(self).cache.entries@[old(self).cache.slot(k)].0.invalidated_by_spec(mutation) {
                changed_opt(old(self).lookup(k), Change::Invalidate)
            } else {
                old(self).lookup(k)
            },
            forall|i: int| 0 <= i < old(self).cache.entries@.len() ==> (r@.contains(i as usize) <==> old(self).cache.entries@[i].0.invalidated_by_spec(mutation)),
            forall|j: int, l: int| 0 <= j < l < r@.len() ==> r@[j] < r@[l],
            forall|j: int| 0 <= j < r@.len() ==> r@[j] < old(self).cache.entries@.len(),
    {
        let ghost old_self = *self;
        let mut hits: Vec<usize> = Vec::new();
        let mut i: usize = 0;
        while i < self.cache.entries.len()
            invariant
                self.wf(),
                i <= self.cache.entries@.len(),
                self.cache.keys() == old_self.cache.keys(),
                self.cache.entries@.len() == old_self.cache.entries@.len(),
                forall|j: int| 0 <= j < i ==> #[trigger] self.cache.entries@[j].1@ == if old_self.cache.entries@[j].0.invalidated_by_spec(mutation) {
                    changed(old_self.cache.entries@[j].1@, Change::Invalidate)
                } else {
                    old_self.cache.entries@[j].1@
                },
                forall|j: int| 0 <= j < i ==> #[trigger] self.cache.entries@[j].0 == old_self.cache.entries@[j].0,
                forall|j: int| i <= j < self.cache.entries@.len() ==> #[trigger] self.cache.entries@[j] == old_self.cache.entries@[j],
                forall|j: int| 0 <= j < i ==> (hits@.contains(j as usize) <==> old_self.cache.entries@[j].0.invalidated_by_spec(mutation)),
                forall|j: int, l: int| 0 <= j < l < hits@.len() ==> hits@[j] < hits@[l],
                forall|j: int| 0 <= j < hits@.len() ==> hits@[j] < i,
            decreases self.cache.entries.len() - i,
        {
            let hit = self.cache.entries[i].0.invalidated_by(mutation);
            let ghost before = hits@;
            if hit {
                self.cache.mutate_at(i, Change::Invalidate);
                hits.push(i);
            }
            proof {
                assert forall|j: int| 0 <= j <= i implies (hits@.contains(j as usize) <==> old_self.cache.entries@[j].0.invalidated_by_spec(mutation)) by {
                    if j < i {
                        if before.contains(j as usize) {
                            let m = choose|m: int| 0 <= m < before.len() && before[m] == j as usize;
                            assert(hits@[m] == j as usize);
                        }
                        if hits@.contains(j as usize) {
                            let m = choose|m: int| 0 <= m < hits@.len() && hits@[m] == j as usize;
                            assert(m < before.len());
                            assert(before[m] == j as usize);
                        }
                    } else {
                        if hit {
                            assert(hits@[before.len() as int] == i);
                        } else {
                            assert(hits@ == before);
                        }
                    }
                }
            }
            i = i + 1;
        }
        proof {
            assert forall|k: KeyView| #[trigger] self.lookup(k) == if old_self.cache.has(k)
                && old_self.cache.entries@[old_self.cache.slot(k)].0.invalidated_by_spec(mutation) {
                changed_opt(old_self.lookup(k), Change::Invalidate)
            } else {
                old_self.lookup(k)
            } by {
                if old_self.cache.has(k) {
                    let i = old_self.cache.slot(k);
                    old_self.cache.lemma_slot(i);
                    self.cache.lemma_slot(i);
                }
            }
        }
        hits
    }

    /// Marks every value stale. Returns the positions of all entries, whose subscribers are to
    /// be handed the value.
    pub fn invalidate_all(&mut self) -> (r: Vec<usize>)
        requires
            old(self).wf(),
        ensures
            final(self).wf(),
            final(self).cache.keys() == old(self).cache.keys(),
            final(self).cache.entries@.len() == old(self).cache.entries@.len(),
            forall|i: int| 0 <= i < old(self).cache.entries@.len() ==> #[trigger] final(self).cache.entries@[i].1@ == changed(old(self).cache.entries@[i].1@, Change::Invalidate),
            forall|k: KeyView| #[trigger] final(self).lookup(k) == changed_opt(old(self).lookup(k), Change::Invalidate),
            r@.len() == old(self).cache.entries@.len(),
            forall|j: int| 0 <= j < r@.len() ==> r@[j] == j,
    {
        let ghost old_self = *self;
        self.cache.mutate_all(&Change::Invalidate);
        proof {
            assert forall|k: KeyView| #[trigger] self.lookup(k) == changed_opt(old_self.lookup(k), Change::Invalidate) by {
                if old_self.cache.has(k) {
                    let i = old_self.cache.slot(k);
                    old_self.cache.lemma_slot(i);
                    self.cache.lemma_slot(i);
                }
            }
        }
        let mut all: Vec<usize> = Vec::new();
        let mut i: usize = 0;
        while i < self.cache.entries.len()
            invariant
                i <= self.cache.entries@.len(),
                all@.len() == i,
                forall|j: int| 0 <= j < i ==> all@[j] == j,
            decreases self.cache.entries.len() - i,
        {
            all.push(i);
            i = i + 1;
        }
        all
    }
}

/// An entry after subscriptions of the handles `hs`, in order, with no fetch completing between.
pub open spec fn subscribe_all(e: Option<EntryView>, hs: Seq<u64>) -> Option<EntryView>
    decreases hs.len(),
{
    if hs.len() == 0 {
        e
    } else {
        Some(subscribed(subscribe_all(e, hs.drop_last()), hs.last()))
    }
}

/// How many of those subscriptions start a fetch.
pub open spec fn fetches_started(e: Option<EntryView>, hs: Seq<u64>) -> nat
    decreases hs.len(),
{
    if hs.len() == 0 {
        0
    } else {
        fetches_started(e, hs.drop_last()) + if wants_fetch(subscribe_all(e, hs.drop_last())) {
            1nat
        } else {
            0nat
        }
    }
}

/// After any subscription the entry needs no fetch: either one is running or the value is valid.
pub proof fn lemma_subscribed_needs_no_fetch(e: Option<EntryView>, h: u64)
    ensures
        !wants_fetch(Some(subscribed(e, h))),
{
}

/// However many subscriptions arrive for a key before a fetch completes, at most one of them
/// starts a fetch, and none does when the entry did not need one.
pub proof fn lemma_single_flight(e: Option<EntryView>, hs: Seq<u64>)
    ensures
        fetches_started(e, hs) <= 1,
        !wants_fetch(e) ==> fetches_started(e, hs) == 0,
        hs.len() > 0 ==> !wants_fetch(subscribe_all(e, hs)),
    decreases hs.len(),
{
    if hs.len() > 0 {
        let prefix = hs.drop_last();
        lemma_single_flight(e, prefix);
        lemma_subscribed_needs_no_fetch(subscribe_all(e, prefix), hs.last());
    }
}

/// Invalidation keeps the data: only the validity flag drops; delay, running fetch and
/// subscribers stay.
pub proof fn lemma_invalidation_keeps_data(e: EntryView)
    ensures
        changed(e, Change::Invalidate).value == (false, e.value.1),
        changed(e, Change::Invalidate).delay == e.delay,
        changed(e, Change::Invalidate).progress == e.progress,
        changed(e, Change::Invalidate).subscriptions == e.subscriptions,
{
}

/// Growing a positive delay below `u64::MAX` makes it strictly longer.
pub proof fn lemma_grown_increases(d: u64)
    requires
        0 < d < u64::MAX,
    ensures
        grown(d) > d,
{
}

/// Each failure lengthens the retry delay: a first failure sets the initial delay and each
/// further one makes any positive delay strictly longer, until it reaches `u64::MAX`.
pub proof fn lemma_backoff_grows(e: EntryView)
    ensures
        e.delay is None ==> changed(e, Change::Fail).delay == Some(DELAY_INITIAL),
        e.delay matches Some(d) ==> 0 < d < u64::MAX ==> changed(e, Change::Fail).delay->0 > d,
        e.delay matches Some(d) ==> d >= DELAY_INITIAL ==> changed(e, Change::Fail).delay->0
            >= DELAY_INITIAL,
        changed(e, Change::Fail).value == e.value,
{
}

/// An entry after `n` failures in a row.
pub open spec fn failed_times(e: EntryView, n: nat) -> EntryView
    decreases n,
{
    if n == 0 {
        e
    } else {
        changed(failed_times(e, (n - 1) as nat), Change::Fail)
    }
}

/// Consecutive failures from an entry with no retry delay give the delays `DELAY_INITIAL`,
/// then strictly longer ones after each further failure, until `u64::MAX` is reached.
pub proof fn lemma_backoff_sequence(e: EntryView, n: nat)
    requires
        e.delay is None,
        n >= 1,
    ensures
        failed_times(e, 1).delay == Some(DELAY_INITIAL),
        failed_times(e, n).delay matches Some(d) && d >= DELAY_INITIAL,
        failed_times(e, n).delay->0 < u64::MAX ==> failed_times(e, n + 1).delay->0 > failed_times(e, n).delay->0,
        failed_times(e, n).delay->0 == u64::MAX ==> failed_times(e, n + 1).delay->0 == u64::MAX,
    decreases n,
{
    assert(failed_times(e, 1).delay == Some(DELAY_INITIAL)) by {
        assert(failed_times(e, 0) == e);
    }
    if n > 1 {
        lemma_backoff_sequence(e, (n - 1) as nat);
    }
    let d = failed_times(e, n).delay->0;
    assert(failed_times(e, n + 1) == changed(failed_times(e, n), Change::Fail));
}

/// A success clears the retry delay, so the next failure starts again from the initial delay.
pub proof fn lemma_backoff_reset(e: EntryView, v: Dynamic)
    ensures
        changed(e, Change::Succeed(v)).delay is None,
        changed(changed(e, Change::Succeed(v)), Change::Fail).delay == Some(DELAY_INITIAL),
{
}

/// A first subscription creates a pending entry and starts a fetch at once; its success makes
/// the value valid, ends the fetch and is handed to that one subscriber.
pub proof fn lemma_first_subscription(h: u64, v: Dynamic)
    ensures
        wants_fetch(None),
        subscribed(None, h).progress,
        subscribed(None, h).value == (false, None::<Dynamic>),
        subscribed(None, h).delay is None,
        changed(subscribed(None, h), Change::Succeed(v)).value == (true, Some(v)),
        !changed(subscribed(None, h), Change::Succeed(v)).progress,
        recipients(Some(changed(subscribed(None, h), Change::Succeed(v)))) == seq![h],
{
}

/// Two subscribers before the first answer share one fetch, and both are handed its result.
pub proof fn lemma_shared_fetch(s1: u64, s2: u64, v: Dynamic)
    requires
        s1 != s2,
    ensures
        wants_fetch(None),
        !wants_fetch(Some(subscribed(None, s1))),
        recipients(Some(changed(subscribed(Some(subscribed(None, s1)), s2), Change::Succeed(v))))
            == seq![s1, s2],
{
    assert(!seq![s1].contains(s2)) by {
        if seq![s1].contains(s2) {
            let k = choose|k: int| 0 <= k < 1 && seq![s1][k] == s2;
        }
    }
    assert(seq![s1].push(s2) =~= seq![s1, s2]);
}

/// A failure and then a success leave the entry valid with no retry delay.
pub proof fn lemma_retry_then_success(e: EntryView, v: Dynamic)
    requires
        e.delay is None,
    ensures
        changed(e, Change::Fail).delay == Some(DELAY_INITIAL),
        changed(changed(e, Change::Fail), Change::Succeed(v)).value == (true, Some(v)),
        changed(changed(e, Change::Fail), Change::Succeed(v)).delay is None,
{
}

/// After one subscriber leaves, the value is handed to the others and no longer to it, on each
/// later answer, failure or invalidation.
pub proof fn lemma_unsubscribe_one(e: EntryView, s1: u64, s2: u64, c: Change)
    requires
        entry_wf(e),
        s1 != s2,
        e.subscriptions.contains(s2),
        c is Succeed || c is Fail || c is Invalidate,
    ensures
        !recipients(Some(changed(changed(e, Change::Unsubscribe(s1)), c))).contains(s1),
        recipients(Some(changed(changed(e, Change::Unsubscribe(s1)), c))).contains(s2),
{
    lemma_filter(e.subscriptions, s1);
    let u = changed(e, Change::Unsubscribe(s1));
    assert(changed(u, c).subscriptions == u.subscriptions);
}

} // verus!
