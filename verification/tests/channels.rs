use rust_practice::mpsc_bounded;
use rust_practice::mpsc_bounded_cached;
use rust_practice::ring::{next_power_of_two, slot_of};
use rust_practice::spsc_bounded_cached;
use rust_practice::Attempt;
use std::collections::HashSet;
use std::sync::{Arc, Mutex};

// range of elements to be moved across the channel during testing
const ELEMS: std::ops::Range<i32> = 0..1000;

/// An element that records its life in a shared set, to catch elements that
/// are dropped twice or never.
struct Foo {
    id: i32,
    live: Arc<Mutex<HashSet<i32>>>,
}

impl Foo {
    fn new(id: i32, live: &Arc<Mutex<HashSet<i32>>>) -> Self {
        assert!(live.lock().unwrap().insert(id), "element {} created twice", id);
        Foo {
            id,
            live: live.clone(),
        }
    }
}

impl Drop for Foo {
    fn drop(&mut self) {
        assert!(
            self.live.lock().unwrap().remove(&self.id),
            "double free of element {}",
            self.id
        );
    }
}

fn mb_drain(
    cx: &mpsc_bounded::Consumer<i32>,
    buf: &mut mpsc_bounded::RingBuffer<i32>,
    out: &mut Vec<i32>,
) -> bool {
    loop {
        match cx.recv(buf) {
            Attempt::Done(Ok(v)) => out.push(v),
            Attempt::Done(Err(_)) => return false,
            Attempt::Retry(()) => return true,
        }
    }
}

fn mb_send(
    px: &mpsc_bounded::Producer<i32>,
    cx: &mpsc_bounded::Consumer<i32>,
    buf: &mut mpsc_bounded::RingBuffer<i32>,
    val: i32,
    out: &mut Vec<i32>,
) {
    let mut v = val;
    loop {
        match px.send(buf, v) {
            Attempt::Done(r) => {
                assert!(r.is_ok());
                return;
            }
            Attempt::Retry(back) => {
                v = back;
                mb_drain(cx, buf, out);
            }
        }
    }
}

#[test]
fn lib_elements_arrive_ordered() {
    let (px, cx, mut buf) = mpsc_bounded::channel();
    let mut received = Vec::new();
    for i in ELEMS {
        mb_send(&px, &cx, &mut buf, i, &mut received);
    }
    px.close(&mut buf);
    assert!(!mb_drain(&cx, &mut buf, &mut received));
    assert_eq!(received, ELEMS.collect::<Vec<_>>());
    assert!(matches!(cx.recv(&mut buf), Attempt::Done(Err(_))));
}

#[test]
fn lib_no_elements_lost() {
    let n = ELEMS.len() as i32;
    for _ in 0..100 {
        let (px, cx, mut buf) = mpsc_bounded::channel();
        let px_a = px.clone_in(&mut buf);
        let px_b = px.clone_in(&mut buf);
        let mut received = Vec::new();
        for i in ELEMS {
            mb_send(&px_a, &cx, &mut buf, i, &mut received);
            mb_send(&px_b, &cx, &mut buf, i + n, &mut received);
            mb_send(&px, &cx, &mut buf, i + 2 * n, &mut received);
        }
        px_a.close(&mut buf);
        px_b.close(&mut buf);
        px.close(&mut buf);
        assert!(!mb_drain(&cx, &mut buf, &mut received));
        assert_eq!(received.len(), ELEMS.len() * 3);
        received.sort();
        assert_eq!(received, (0..3 * n).collect::<Vec<_>>());
    }
}

#[test]
fn lib_unused_elements_are_dropped() {
    let live = Arc::new(Mutex::new(HashSet::new()));
    for i in 0..100 {
        let (px, cx, mut buf) = mpsc_bounded::channel();
        let px_b = px.clone_in(&mut buf);
        let mut next = 0;
        let mut taken = 0;
        while taken < i {
            // both producers fill the ring, then the consumer takes one
            loop {
                next += 1;
                match px.send(&mut buf, Foo::new(next, &live)) {
                    Attempt::Done(r) => assert!(r.is_ok()),
                    Attempt::Retry(_) => break,
                }
                match px_b.send(&mut buf, Foo::new(-next, &live)) {
                    Attempt::Done(r) => assert!(r.is_ok()),
                    Attempt::Retry(_) => break,
                }
            }
            match cx.recv(&mut buf) {
                Attempt::Done(Ok(_)) => taken += 1,
                _ => panic!("the ring is not empty"),
            }
        }
        cx.close(&mut buf);
        // with the consumer gone, sending into a full ring fails
        loop {
            next += 1;
            match px.send(&mut buf, Foo::new(next, &live)) {
                Attempt::Done(Ok(())) => {}
                Attempt::Done(Err(_)) => break,
                Attempt::Retry(_) => panic!("no consumer to wait for"),
            }
        }
        px.close(&mut buf);
        px_b.close(&mut buf);
        drop(buf);
        let set = live.lock().unwrap();
        if !set.is_empty() {
            panic!("FOO_MAP not empty: {:?}", *set);
        }
    }
}

#[test]
fn ring_capacity_is_power_of_two() {
    assert_eq!(next_power_of_two(0), 1);
    assert_eq!(next_power_of_two(1), 1);
    assert_eq!(next_power_of_two(3), 4);
    assert_eq!(next_power_of_two(256), 256);
    assert_eq!(next_power_of_two(257), 512);
    assert_eq!(slot_of(300, 256), 44);
    assert_eq!(slot_of(255, 256), 255);
}

#[test]
fn mpsc_ring_reports_len_and_fullness() {
    let (px, cx, mut buf) = mpsc_bounded::channel::<i32>();
    assert_eq!(buf.capacity(), 256);
    assert!(buf.is_empty());
    assert!(buf.cx_exists());
    assert!(buf.px_exist());
    for i in 0..256 {
        assert!(matches!(px.send(&mut buf, i), Attempt::Done(Ok(()))));
    }
    assert!(buf.is_full());
    assert_eq!(buf.len(), 256);
    assert!(matches!(px.send(&mut buf, 256), Attempt::Retry(256)));
    assert!(matches!(cx.recv(&mut buf), Attempt::Done(Ok(0))));
    assert_eq!(buf.head(), 1);
    assert!(matches!(cx.next(&mut buf), Attempt::Done(Some(1))));
    px.close(&mut buf);
    assert!(!buf.px_exist());
    cx.close(&mut buf);
    assert!(!buf.cx_exists());
}

#[test]
fn mpsc_empty_ring_asks_to_wait_until_producers_leave() {
    let (px, cx, mut buf) = mpsc_bounded::channel::<i32>();
    assert!(matches!(cx.recv(&mut buf), Attempt::Retry(())));
    px.close(&mut buf);
    assert!(matches!(cx.recv(&mut buf), Attempt::Done(Err(_))));
    assert!(matches!(cx.next(&mut buf), Attempt::Done(None)));
}

fn sp_drain(
    cx: &mut spsc_bounded_cached::Consumer<i32>,
    buf: &mut spsc_bounded_cached::RingBuffer<i32>,
    out: &mut Vec<i32>,
) -> bool {
    loop {
        match cx.recv(buf) {
            Attempt::Done(Ok(v)) => out.push(v),
            Attempt::Done(Err(_)) => return false,
            Attempt::Retry(()) => return true,
        }
    }
}

#[test]
fn elements_arrive_ordered() {
    let (mut px, mut cx, mut buf) = spsc_bounded_cached::channel();
    let mut received = Vec::new();
    for i in ELEMS {
        let mut v = i;
        loop {
            match px.send(&mut buf, v) {
                Attempt::Done(r) => {
                    assert!(r.is_ok());
                    break;
                }
                Attempt::Retry(back) => {
                    v = back;
                    sp_drain(&mut cx, &mut buf, &mut received);
                }
            }
        }
    }
    px.close(&mut buf);
    assert!(!sp_drain(&mut cx, &mut buf, &mut received));
    assert_eq!(received, ELEMS.collect::<Vec<_>>());
    assert!(matches!(cx.recv(&mut buf), Attempt::Done(Err(_))));
}

#[test]
fn spsc_no_elements_lost() {
    for _ in 0..100 {
        let (mut px, mut cx, mut buf) = spsc_bounded_cached::channel();
        let mut count = 0;
        let mut got = Vec::new();
        for i in ELEMS {
            let mut v = i;
            loop {
                match px.send(&mut buf, v) {
                    Attempt::Done(r) => {
                        assert!(r.is_ok());
                        break;
                    }
                    Attempt::Retry(back) => {
                        v = back;
                        sp_drain(&mut cx, &mut buf, &mut got);
                    }
                }
            }
        }
        px.close(&mut buf);
        sp_drain(&mut cx, &mut buf, &mut got);
        count += got.len();
        assert_eq!(count, ELEMS.len());
    }
}

#[test]
fn spsc_unused_elements_are_dropped() {
    let live = Arc::new(Mutex::new(HashSet::new()));
    for i in 0..100 {
        let (mut px, mut cx, mut buf) = spsc_bounded_cached::channel();
        let mut next = 0;
        let mut taken = 0;
        while taken < i {
            loop {
                next += 1;
                match px.send(&mut buf, Foo::new(next, &live)) {
                    Attempt::Done(r) => assert!(r.is_ok()),
                    Attempt::Retry(_) => break,
                }
            }
            match cx.recv(&mut buf) {
                Attempt::Done(Ok(_)) => taken += 1,
                _ => panic!("the ring is not empty"),
            }
        }
        cx.close(&mut buf);
        loop {
            next += 1;
            match px.send(&mut buf, Foo::new(next, &live)) {
                Attempt::Done(Ok(())) => {}
                Attempt::Done(Err(_)) => break,
                Attempt::Retry(_) => panic!("no consumer to wait for"),
            }
        }
        drop(px);
        drop(buf);
        let set = live.lock().unwrap();
        if !set.is_empty() {
            panic!("FOO_MAP not empty: {:?}", *set);
        }
    }
}

#[test]
fn spsc_ring_len_counts_elements() {
    let (mut px, mut cx, mut buf) = spsc_bounded_cached::channel::<u8>();
    assert_eq!(buf.capacity(), 256);
    assert!(buf.available());
    // `len` subtracts the tail from the head: it is defined on an empty ring
    assert_eq!(buf.len(), 0);
    assert!(matches!(px.send(&mut buf, 7), Attempt::Done(Ok(()))));
    assert!(matches!(px.send(&mut buf, 8), Attempt::Done(Ok(()))));
    assert_eq!(buf.tail(), 2);
    assert!(matches!(cx.next(&mut buf), Attempt::Done(Some(7))));
    assert!(matches!(cx.next(&mut buf), Attempt::Done(Some(8))));
    assert_eq!(buf.head(), 2);
    assert_eq!(buf.len(), 0);
}

#[test]
fn spsc_first_capacity_sends_go_through() {
    let mut buf = spsc_bounded_cached::RingBuffer::<u32>::new(4);
    let mut px = spsc_bounded_cached::Producer::new(&buf);
    for v in 0..4 {
        assert!(matches!(px.send(&mut buf, v), Attempt::Done(Ok(()))));
    }
    assert_eq!(buf.tail(), buf.capacity());
    assert_eq!(buf.head(), 0);
    assert!(matches!(px.send(&mut buf, 4), Attempt::Retry(4)));
}

fn mc_drain(
    cx: &mpsc_bounded_cached::Consumer<i32>,
    buf: &mut mpsc_bounded_cached::RingBuffer<i32>,
    out: &mut Vec<i32>,
) -> bool {
    loop {
        match cx.recv(buf) {
            Attempt::Done(Ok(v)) => out.push(v),
            Attempt::Done(Err(_)) => return false,
            Attempt::Retry(()) => return true,
        }
    }
}

fn mc_send(
    px: &mut mpsc_bounded_cached::Producer<i32>,
    cx: &mpsc_bounded_cached::Consumer<i32>,
    buf: &mut mpsc_bounded_cached::RingBuffer<i32>,
    val: i32,
    out: &mut Vec<i32>,
) {
    let mut v = val;
    loop {
        match px.send(buf, v) {
            Attempt::Done(r) => {
                assert!(r.is_ok());
                return;
            }
            Attempt::Retry(back) => {
                v = back;
                mc_drain(cx, buf, out);
            }
        }
    }
}

#[test]
fn elements_arrive_ordered_sp() {
    let (mut px, cx, mut buf) = mpsc_bounded_cached::channel();
    let mut received = Vec::new();
    for i in ELEMS {
        mc_send(&mut px, &cx, &mut buf, i, &mut received);
    }
    px.close(&mut buf);
    assert!(!mc_drain(&cx, &mut buf, &mut received));
    assert_eq!(received, ELEMS.collect::<Vec<_>>());
    assert!(matches!(cx.recv(&mut buf), Attempt::Done(Err(_))));
}

#[test]
fn cached_no_elements_lost() {
    let n = ELEMS.len() as i32;
    for _ in 0..100 {
        let (mut px, cx, mut buf) = mpsc_bounded_cached::channel();
        let mut px_a = px.clone_in(&mut buf);
        let mut px_b = px.clone_in(&mut buf);
        let mut received = Vec::new();
        for i in ELEMS {
            mc_send(&mut px_a, &cx, &mut buf, i, &mut received);
            mc_send(&mut px_b, &cx, &mut buf, i + n, &mut received);
            mc_send(&mut px, &cx, &mut buf, i + 2 * n, &mut received);
        }
        px_a.close(&mut buf);
        px_b.close(&mut buf);
        px.close(&mut buf);
        assert!(!mc_drain(&cx, &mut buf, &mut received));
        assert_eq!(received.len(), ELEMS.len() * 3);
        received.sort();
        assert_eq!(received, (0..3 * n).collect::<Vec<_>>());
    }
}

#[test]
fn cached_elements_wait_for_a_flush() {
    let (mut px, cx, mut buf) = mpsc_bounded_cached::channel::<i32>();
    assert!(matches!(px.send(&mut buf, 1), Attempt::Done(Ok(()))));
    assert_eq!(buf.reserved(), 32);
    // the slice is not filled yet: nothing is readable
    assert!(matches!(cx.recv(&mut buf), Attempt::Retry(())));
    px.flush(&mut buf);
    assert!(matches!(cx.recv(&mut buf), Attempt::Done(Ok(1))));
    // the padding of the flushed slice is passed over
    assert!(matches!(cx.recv(&mut buf), Attempt::Retry(())));
    px.close(&mut buf);
    assert!(matches!(cx.recv(&mut buf), Attempt::Done(Err(_))));
}
