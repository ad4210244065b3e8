use wasm_cache::cache::{Cache, Change, Entry, DELAY_INITIAL};
use wasm_cache::invalidate::KindMutation;
use wasm_cache::key::{ErasedKey, KIND_NUMBER};
use wasm_cache::value::{Dynamic, Value};

fn text(s: &str) -> ErasedKey {
    ErasedKey::new(&String::from(s))
}

fn entry(cache: &Cache, key: &ErasedKey) -> Entry {
    let e = cache.get(key).unwrap();
    Entry {
        delay: e.delay,
        progress: e.progress,
        value: if e.value.valid() {
            Value::new(copy(e.value.data().unwrap()))
        } else {
            let mut v = match e.value.data() {
                Some(d) => Value::new(copy(d)),
                None => Value::empty(),
            };
            v.invalidate();
            v
        },
        subscriptions: e.subscriptions.clone(),
    }
}

fn copy(d: &Dynamic) -> Dynamic {
    match d {
        Dynamic::Unit => Dynamic::Unit,
        Dynamic::Flag(b) => Dynamic::Flag(*b),
        Dynamic::Number(n) => Dynamic::Number(*n),
        Dynamic::Signed(n) => Dynamic::Signed(*n),
        Dynamic::Bytes(v) => Dynamic::Bytes(v.clone()),
    }
}

#[test]
fn first_subscription_fetches_at_once() {
    let mut cache = Cache::new();
    let k = text("K");
    let s = cache.subscribe(k.duplicate(), 1, &Value::empty());
    assert!(s.fetch);
    assert_eq!(s.delay, None);
    assert!(!s.notify);
    let e = entry(&cache, &k);
    assert!(e.progress);
    assert!(!e.value.valid());
    assert!(e.value.data().is_none());

    let notified = cache.cache(&k, Dynamic::Number(7));
    assert_eq!(notified, vec![1]);
    let e = cache.get(&k).unwrap();
    assert!(e.value.valid());
    assert!(!e.progress);
    assert!(e.value.data().unwrap().same(&Dynamic::Number(7)));
}

#[test]
fn two_subscribers_share_one_fetch() {
    let mut cache = Cache::new();
    let k = text("K");
    let first = cache.subscribe(k.duplicate(), 1, &Value::empty());
    let second = cache.subscribe(k.duplicate(), 2, &Value::empty());
    assert!(first.fetch);
    assert!(!second.fetch);
    assert!(!second.notify);
    let notified = cache.cache(&k, Dynamic::Flag(true));
    assert_eq!(notified, vec![1, 2]);
}

#[test]
fn many_subscriptions_start_one_fetch() {
    let mut cache = Cache::new();
    let k = ErasedKey::new(&3u64);
    let mut started = 0;
    for h in 0..10u64 {
        if cache.subscribe(k.duplicate(), h, &Value::empty()).fetch {
            started += 1;
        }
    }
    assert_eq!(started, 1);
    assert_eq!(cache.get(&k).unwrap().subscriptions.len(), 10);
}

#[test]
fn failure_then_success() {
    let mut cache = Cache::new();
    let k = text("K");
    cache.subscribe(k.duplicate(), 1, &Value::empty());
    let notified = cache.failure(&k);
    assert_eq!(notified, vec![1]);
    let e = cache.get(&k).unwrap();
    assert_eq!(e.delay, Some(DELAY_INITIAL));
    assert!(!e.progress);
    assert!(e.needs_fetch());

    let again = cache.subscribe(k.duplicate(), 1, &Value::empty());
    assert!(again.fetch);
    assert_eq!(again.delay, Some(DELAY_INITIAL));
    assert!(cache.get(&k).unwrap().progress);

    cache.cache(&k, Dynamic::Number(1));
    let e = cache.get(&k).unwrap();
    assert!(e.value.valid());
    assert_eq!(e.delay, None);
}

#[test]
fn backoff_grows_by_half() {
    let mut cache = Cache::new();
    let k = text("K");
    cache.subscribe(k.duplicate(), 1, &Value::empty());
    let mut seen = Vec::new();
    for _ in 0..4 {
        cache.failure(&k);
        seen.push(cache.get(&k).unwrap().delay.unwrap());
    }
    assert_eq!(seen, vec![100_000_000, 150_000_000, 225_000_000, 337_500_000]);
    cache.cache(&k, Dynamic::Unit);
    assert_eq!(cache.get(&k).unwrap().delay, None);
    cache.failure(&k);
    assert_eq!(cache.get(&k).unwrap().delay, Some(DELAY_INITIAL));
}

#[test]
fn backoff_grows_every_positive_delay() {
    let mut e = Entry { delay: Some(1), progress: false, value: Value::empty(), subscriptions: vec![] };
    e.delay_update();
    assert_eq!(e.delay, Some(2));
    e.delay_update();
    assert_eq!(e.delay, Some(3));
    e.delay_update();
    assert_eq!(e.delay, Some(5));
    e.delay = Some(337_500_001);
    e.delay_update();
    assert_eq!(e.delay, Some(506_250_002));
}

#[test]
fn backoff_stops_at_the_largest_delay() {
    let mut e = Entry { delay: Some(u64::MAX - 1), progress: false, value: Value::empty(), subscriptions: vec![] };
    e.delay_update();
    assert_eq!(e.delay, Some(u64::MAX));
    e.delay_update();
    assert_eq!(e.delay, Some(u64::MAX));
    e.delay_reset();
    assert_eq!(e.delay, None);
}

#[test]
fn invalidate_by_mutation() {
    let mut cache = Cache::new();
    let a = ErasedKey::new(&1u64);
    let b = ErasedKey::new(&2u64);
    let c = text("c");
    for k in [&a, &b, &c] {
        cache.subscribe(k.duplicate(), 9, &Value::empty());
        cache.cache(k, Dynamic::Number(5));
    }
    let hit = cache.invalidate(&KindMutation { kind: KIND_NUMBER });
    assert_eq!(hit, vec![1, 2]);
    assert!(!cache.get(&a).unwrap().value.valid());
    assert!(!cache.get(&b).unwrap().value.valid());
    assert!(cache.get(&c).unwrap().value.valid());
    assert!(cache.get(&a).unwrap().value.data().unwrap().same(&Dynamic::Number(5)));
    assert!(cache.get(&a).unwrap().needs_fetch());
}

#[test]
fn invalidate_everything() {
    let mut cache = Cache::new();
    let a = text("a");
    let b = text("b");
    cache.subscribe(a.duplicate(), 1, &Value::empty());
    cache.subscribe(b.duplicate(), 2, &Value::empty());
    cache.cache(&a, Dynamic::Number(1));
    cache.cache(&b, Dynamic::Number(2));
    let all = cache.invalidate_all();
    assert_eq!(all, vec![0, 1]);
    assert!(!cache.get(&a).unwrap().value.valid());
    assert!(!cache.get(&b).unwrap().value.valid());
    let hit = cache.invalidate(&());
    assert_eq!(hit, vec![0, 1]);
}

#[test]
fn invalidate_one_key() {
    let mut cache = Cache::new();
    let a = text("a");
    let b = text("b");
    cache.subscribe(a.duplicate(), 1, &Value::empty());
    cache.subscribe(b.duplicate(), 2, &Value::empty());
    cache.cache(&a, Dynamic::Number(1));
    cache.cache(&b, Dynamic::Number(2));
    assert_eq!(cache.invalidate_key(&a), vec![1]);
    assert!(!cache.get(&a).unwrap().value.valid());
    assert!(cache.get(&b).unwrap().value.valid());
    assert_eq!(cache.invalidate_key(&text("none")), Vec::<u64>::new());
}

#[test]
fn invalidated_while_fetching_starts_no_second_fetch() {
    let mut cache = Cache::new();
    let k = text("K");
    cache.subscribe(k.duplicate(), 1, &Value::empty());
    cache.invalidate_key(&k);
    assert!(!cache.subscribe(k.duplicate(), 2, &Value::empty()).fetch);
    cache.cache(&k, Dynamic::Number(3));
    assert!(cache.get(&k).unwrap().value.valid());
}

#[test]
fn unsubscribe_leaves_the_others() {
    let mut cache = Cache::new();
    let k = text("K");
    cache.subscribe(k.duplicate(), 1, &Value::empty());
    cache.subscribe(k.duplicate(), 2, &Value::empty());
    cache.unsubscribe(&k, 1);
    assert_eq!(cache.cache(&k, Dynamic::Number(4)), vec![2]);
    assert_eq!(cache.invalidate_key(&k), vec![2]);
    cache.unsubscribe(&k, 1);
    cache.unsubscribe(&k, 2);
    assert!(cache.get(&k).is_some());
    assert_eq!(cache.failure(&k), Vec::<u64>::new());
}

#[test]
fn resubscribing_is_idempotent_and_notifies_stale_holders() {
    let mut cache = Cache::new();
    let k = text("K");
    cache.subscribe(k.duplicate(), 1, &Value::empty());
    cache.cache(&k, Dynamic::Number(8));
    let again = cache.subscribe(k.duplicate(), 1, &Value::new(Dynamic::Number(8)));
    assert!(!again.notify);
    assert!(!again.fetch);
    let other = cache.subscribe(k.duplicate(), 2, &Value::empty());
    assert!(other.notify);
    assert_eq!(cache.get(&k).unwrap().subscriptions, vec![1, 2]);
    assert_eq!(cache.get(&k).unwrap().broadcast(), vec![1, 2]);
}

#[test]
fn results_for_unknown_keys_are_dropped() {
    let mut cache = Cache::new();
    assert_eq!(cache.cache(&text("x"), Dynamic::Unit), Vec::<u64>::new());
    assert!(cache.get(&text("x")).is_none());
}

#[test]
fn entry_changes() {
    let mut e = Entry { delay: None, progress: false, value: Value::empty(), subscriptions: vec![] };
    assert!(e.needs_fetch());
    e.apply(Change::Subscribe(4));
    assert!(e.progress);
    e.subscribe(4);
    assert_eq!(e.subscriptions, vec![4]);
    e.apply(Change::Succeed(Dynamic::Signed(-1)));
    assert!(e.value.valid());
    assert!(!e.needs_fetch());
    e.apply(Change::Invalidate);
    assert!(e.needs_fetch());
    e.apply(Change::Fail);
    assert_eq!(e.delay, Some(DELAY_INITIAL));
    e.unsubscribe(4);
    assert!(e.subscriptions.is_empty());
}
