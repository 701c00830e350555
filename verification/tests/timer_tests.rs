use mg::timer::{PerCpuTimer, TimeoutFuture, TimeoutPoll, Timer};
use mg::utils::cpu_this;

#[test]
fn cpu_this_is_zero() {
    assert_eq!(cpu_this(), 0);
}

#[test]
fn diff_msb_levels() {
    assert_eq!(PerCpuTimer::<10>::diff_msb(0, 1), 0);
    assert_eq!(PerCpuTimer::<10>::diff_msb(1, 2), 1);
    assert_eq!(PerCpuTimer::<10>::diff_msb(3, 4), 2);
    assert_eq!(PerCpuTimer::<10>::diff_msb(7, 8), 3);
    assert_eq!(PerCpuTimer::<10>::diff_msb(100, 101), 0);
    assert_eq!(PerCpuTimer::<10>::diff_msb(0, 100), 6);
    assert_eq!(PerCpuTimer::<10>::diff_msb(0, 1 << 20), 9);
    assert_eq!(PerCpuTimer::<10>::diff_msb(0xffff_ffff, 0), 9);
    assert_eq!(PerCpuTimer::<32>::diff_msb(0xffff_ffff, 0), 31);
    assert_eq!(PerCpuTimer::<1>::diff_msb(5, 6), 0);
}

#[test]
fn waiter_fires_after_its_delay() {
    let mut t: PerCpuTimer<10> = PerCpuTimer::new();
    t.init();
    t.subscribe(5, 0);
    for _ in 0..4 {
        assert!(t.tick().is_empty());
    }
    assert_eq!(t.tick(), vec![0]);
    for _ in 0..100 {
        assert!(t.tick().is_empty());
    }
}

#[test]
fn waiters_fire_in_deadline_order() {
    let mut t: PerCpuTimer<4> = PerCpuTimer::new();
    let delays = [3u32, 1, 100, 17, 64, 8, 9, 2000];
    for (w, d) in delays.iter().enumerate() {
        t.subscribe(*d, w);
    }
    let mut fired_at = vec![0u32; delays.len()];
    for now in 1..=2100u32 {
        for w in t.tick() {
            assert_eq!(fired_at[w], 0);
            fired_at[w] = now;
        }
    }
    assert_eq!(fired_at, delays.to_vec());
}

#[test]
fn waiters_of_one_tick_fire_in_subscription_order() {
    let mut t: PerCpuTimer<10> = PerCpuTimer::new();
    t.subscribe(1, 5);
    t.subscribe(1, 2);
    t.subscribe(1, 9);
    assert_eq!(t.tick(), vec![5, 2, 9]);
    t.subscribe(3, 3);
    t.subscribe(3, 1);
    t.subscribe(7, 6);
    assert!(t.tick().is_empty());
    assert!(t.tick().is_empty());
    assert_eq!(t.tick(), vec![3, 1]);
    for _ in 0..3 {
        assert!(t.tick().is_empty());
    }
    assert_eq!(t.tick(), vec![6]);
}

#[test]
fn init_drops_the_waiters() {
    let mut t: PerCpuTimer<4> = PerCpuTimer::new();
    t.subscribe(2, 1);
    t.subscribe(9, 3);
    t.init();
    for _ in 0..20 {
        assert!(t.tick().is_empty());
    }
    t.subscribe(1, 1);
    assert_eq!(t.tick(), vec![1]);
}

#[test]
fn same_deadline_fires_together() {
    let mut t: PerCpuTimer<10> = PerCpuTimer::new();
    t.subscribe(6, 3);
    t.tick();
    t.tick();
    t.subscribe(4, 8);
    t.tick();
    t.tick();
    t.tick();
    let mut f = t.tick();
    f.sort();
    assert_eq!(f, vec![3, 8]);
}

#[test]
fn resubscribe_after_firing() {
    let mut t: PerCpuTimer<10> = PerCpuTimer::new();
    t.subscribe(2, 1);
    assert!(t.tick().is_empty());
    assert_eq!(t.tick(), vec![1]);
    t.subscribe(1, 1);
    assert_eq!(t.tick(), vec![1]);
}

#[test]
fn timer_ticks_cpu_zero() {
    let mut timer: Timer<10, 1> = Timer::new();
    timer.init();
    timer.subscribe_on(0, 3, 7);
    assert!(timer.tick().is_empty());
    assert!(timer.tick().is_empty());
    assert_eq!(timer.tick(), vec![7]);
}

#[test]
fn sleep_zero_wakes_at_once() {
    let mut timer: Timer<10, 1> = Timer::new();
    let mut f = TimeoutFuture::new(2, 0);
    assert!(matches!(f.poll(&mut timer), TimeoutPoll::WakeNow));
    assert!(matches!(f.poll(&mut timer), TimeoutPoll::Ready));
}

#[test]
fn sleep_waits_for_its_ticks() {
    let mut timer: Timer<10, 1> = Timer::new();
    let mut f = TimeoutFuture::new(4, 100);
    assert!(matches!(f.poll(&mut timer), TimeoutPoll::Pending));
    for _ in 0..99 {
        assert!(timer.tick().is_empty());
    }
    assert_eq!(timer.tick(), vec![4]);
    assert!(matches!(f.poll(&mut timer), TimeoutPoll::Ready));
}

#[test]
fn sleep_for_on_timer() {
    let mut timer: Timer<10, 1> = Timer::new();
    let mut f = timer.sleep_for(5, 2);
    assert_eq!((f.wb, f.cpu, f.delay), (5, 0, Some(2)));
    assert!(matches!(f.poll(&mut timer), TimeoutPoll::Pending));
    assert_eq!(timer.ticks_of(0), 0);
    assert!(timer.tick().is_empty());
    assert_eq!(timer.tick(), vec![5]);
    assert_eq!(timer.ticks_of(0), 2);
}
