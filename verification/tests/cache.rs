//! The cache driven directly, with a fetcher that hands out fresh mapping
//! descriptors the way a mapping layer would.

use harrow::{Cache, RawView};

const PAGE: usize = 4096;

/// Mints mapping descriptors at increasing base addresses, mirroring a
/// mapping layer that maps each requested range at a fresh address.
struct Mapper {
    next: usize,
}

impl Mapper {
    fn new() -> Mapper {
        Mapper { next: 0 }
    }

    fn grab(&mut self, off: usize, len: usize) -> RawView {
        let base = self.next;
        self.next += len + 1;
        RawView::new(base, off, len)
    }
}

#[test]
fn take_one_then_return() {
    let mut mapper = Mapper::new();
    let mut cache = Cache::with_capacity(1);

    let take = cache.take(0, PAGE);
    let view = take
        .or_fetch(&mut cache, |off, len| Ok::<RawView, ()>(mapper.grab(off, len)))
        .unwrap();

    assert_eq!(cache.available(), 0);
    assert_eq!(cache.lent(), 1);

    cache.restore_ref(view);

    assert_eq!(cache.available(), 1);
    assert_eq!(cache.lent(), 0);
}

#[test]
fn take_twice_then_return() {
    let mut mapper = Mapper::new();
    let mut cache = Cache::with_capacity(1);

    let take = cache.take(0, PAGE);
    let view1 = take
        .or_fetch(&mut cache, |off, len| Ok::<RawView, ()>(mapper.grab(off, len)))
        .unwrap();

    let take = cache.take(0, PAGE);
    let view2 = take
        .or_fetch(&mut cache, |off, len| Ok::<RawView, ()>(mapper.grab(off, len)))
        .unwrap();

    assert_eq!(cache.available(), 0);
    assert_eq!(cache.lent(), 1);
    assert_eq!(view1.as_ptr(), view2.as_ptr());

    cache.restore_ref(view1);

    assert_eq!(cache.available(), 0);
    assert_eq!(cache.lent(), 1);

    cache.restore_ref(view2);

    assert_eq!(cache.available(), 1);
    assert_eq!(cache.lent(), 0);
}

#[test]
fn take_more_then_return() {
    let mut mapper = Mapper::new();
    let mut cache = Cache::with_capacity(2);

    let take = cache.take(0, PAGE);
    let view1 = take
        .or_fetch(&mut cache, |off, len| Ok::<RawView, ()>(mapper.grab(off, len)))
        .unwrap();

    let take = cache.take(PAGE, PAGE);
    let view2 = take
        .or_fetch(&mut cache, |off, len| Ok::<RawView, ()>(mapper.grab(off, len)))
        .unwrap();

    assert_eq!(cache.available(), 0);
    assert_eq!(cache.lent(), 2);
    assert_ne!(view1.as_base_ptr(), view2.as_base_ptr());

    cache.restore_ref(view1);

    assert_eq!(cache.available(), 1);
    assert_eq!(cache.lent(), 1);

    cache.restore_ref(view2);

    assert_eq!(cache.available(), 2);
    assert_eq!(cache.lent(), 0);
}

#[test]
fn take_mut_then_return() {
    let mut mapper = Mapper::new();
    let mut cache = Cache::with_capacity(1);

    let take = cache.take_mut(0, PAGE);
    let view = take
        .or_fetch(&mut cache, |off, len| Ok::<RawView, ()>(mapper.grab(off, len)))
        .unwrap();

    cache.restore_mut(view);

    assert_eq!(cache.available(), 1);
    assert_eq!(cache.lent(), 0);
}

#[test]
fn capacity_limit() {
    let mut mapper = Mapper::new();
    let mut cache = Cache::with_capacity(1);

    let take = cache.take(0, PAGE);
    let view1 = take
        .or_fetch(&mut cache, |off, len| Ok::<RawView, ()>(mapper.grab(off, len)))
        .unwrap();

    let take = cache.take(PAGE, PAGE);
    let view2 = take
        .or_fetch(&mut cache, |off, len| Ok::<RawView, ()>(mapper.grab(off, len)))
        .unwrap();

    assert_eq!(cache.available(), 0);
    assert_eq!(cache.lent(), 2);
    assert_ne!(view1.as_base_ptr(), view2.as_base_ptr());

    cache.restore_ref(view1);

    assert_eq!(cache.available(), 1);
    assert_eq!(cache.lent(), 1);

    cache.restore_ref(view2);

    assert_eq!(cache.available(), 1);
    assert_eq!(cache.lent(), 0);
    assert!(cache.holds(PAGE, PAGE));
}

#[test]
fn take_mut_capacity_limit() {
    let mut mapper = Mapper::new();
    let mut cache = Cache::with_capacity(1);

    let take = cache.take(0, PAGE);
    let view = take
        .or_fetch(&mut cache, |off, len| Ok::<RawView, ()>(mapper.grab(off, len)))
        .unwrap();

    cache.restore_ref(view);

    let take = cache.take_mut(PAGE, PAGE);
    let view = take
        .or_fetch(&mut cache, |off, len| Ok::<RawView, ()>(mapper.grab(off, len)))
        .unwrap();

    cache.restore_mut(view);

    assert_eq!(cache.available(), 1);
    assert_eq!(cache.lent(), 0);
    assert!(cache.holds(PAGE, PAGE));
    assert!(!cache.holds(0, PAGE));

    let take = cache.take(0, PAGE);
    let view = take
        .or_fetch(&mut cache, |off, len| Ok::<RawView, ()>(mapper.grab(off, len)))
        .unwrap();

    cache.restore_ref(view);

    assert_eq!(cache.available(), 1);
    assert_eq!(cache.lent(), 0);
    assert!(cache.holds(0, PAGE));
    assert!(!cache.holds(PAGE, PAGE));
}

#[test]
fn hit_correctness() {
    let mut mapper = Mapper::new();
    let mut cache = Cache::with_capacity(1);

    let take = cache.take(0, PAGE);
    let view1 = take
        .or_fetch(&mut cache, |off, len| Ok::<RawView, ()>(mapper.grab(off, len)))
        .unwrap();

    let take = cache.take(0, 64);
    let view2 = take
        .or_fetch(&mut cache, |off, len| Ok::<RawView, ()>(mapper.grab(off, len)))
        .unwrap();

    assert_eq!(view1.as_base_ptr(), view2.as_base_ptr());
    assert_eq!(cache.available(), 0);
    assert_eq!(cache.lent(), 1);

    let take = cache.take(PAGE - 64, 64);
    let view3 = take
        .or_fetch(&mut cache, |off, len| Ok::<RawView, ()>(mapper.grab(off, len)))
        .unwrap();

    assert_eq!(view1.as_base_ptr(), view3.as_base_ptr());
    assert_eq!(cache.available(), 0);
    assert_eq!(cache.lent(), 1);
}
