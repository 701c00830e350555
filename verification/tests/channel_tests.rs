use mg::channel::{ChannelFuture, ChannelPoll};
use mg::list::Mut;
use mg::msg::{Envelope, Message};
use mg::pool::Pool;
use mg::Channel;

fn ready_id(p: ChannelPoll) -> Option<usize> {
    match p {
        ChannelPoll::Ready(m) => Some(m.release()),
        ChannelPoll::Pending => None,
    }
}

#[test]
fn messages_wait_in_order() {
    let mut c = Channel::new();
    c.init();
    assert_eq!(c.put(Envelope::new(Mut::new(5))), None);
    assert_eq!(c.put_internal(Mut::new(6)), None);
    assert_eq!(c.get(0).map(|m| m.release()), Some(5));
    assert_eq!(c.take_msg().map(|m| m.release()), Some(6));
    assert!(c.take_msg().is_none());
}

#[test]
fn put_goes_to_longest_waiting_receiver() {
    let mut c = Channel::new();
    assert!(c.get(10).is_none());
    assert!(c.get(11).is_none());
    assert_eq!(c.put(Envelope::new(Mut::new(1))), Some(10));
    assert_eq!(c.put(Envelope::new(Mut::new(2))), Some(11));
    assert_eq!(c.put(Envelope::new(Mut::new(3))), None);
    assert_eq!(c.take_handed(11).map(|m| m.release()), Some(2));
    assert_eq!(c.take_handed(10).map(|m| m.release()), Some(1));
    assert!(c.take_handed(10).is_none());
    assert_eq!(c.take_msg().map(|m| m.release()), Some(3));
}

#[test]
fn block_on_polls() {
    let mut c = Channel::new();
    let f = ChannelFuture { wb: 3 };
    assert_eq!(ready_id(f.poll(&mut c)), None);
    assert_eq!(c.put(Envelope::new(Mut::new(9))), Some(3));
    assert_eq!(ready_id(f.poll(&mut c)), Some(9));
    c.put(Envelope::new(Mut::new(4)));
    assert_eq!(ready_id(f.poll(&mut c)), Some(4));
}

#[test]
fn message_and_envelope() {
    let m = Message::new(17u32);
    assert!(!m.parent);
    assert_eq!(m.payload, 17);
    let e = Envelope::new(Mut::new(2));
    assert_eq!(e.id(), 2);
    assert_eq!(e.into_msg().release(), 2);
}

#[test]
fn pool_hands_out_fresh_then_recycled() {
    let mut p: Pool<u32> = Pool::new();
    assert!(p.allocate().is_none());
    p.init(vec![Message::new(0), Message::new(0), Message::new(0)]);
    let a = p.allocate().unwrap();
    let b = p.allocate().unwrap();
    let c = p.allocate().unwrap();
    assert_eq!((a.id(), b.id(), c.id()), (0, 1, 2));
    assert!(p.allocate().is_none());
    assert_eq!(p.recycle(b), None);
    assert_eq!(p.recycle(a), None);
    assert_eq!(p.allocate().map(|e| e.id()), Some(1));
    assert_eq!(p.allocate().map(|e| e.id()), Some(0));
    assert!(p.allocate().is_none());
    drop(c);
}

#[test]
fn pool_of_five_hands_out_each_once_then_reuses() {
    let mut p: Pool<u32> = Pool::new();
    p.init((0..5).map(|_| Message::new(0)).collect());
    let got: Vec<Envelope> = (0..5).map(|_| p.allocate().unwrap()).collect();
    assert_eq!(got.iter().map(|e| e.id()).collect::<Vec<_>>(), vec![0, 1, 2, 3, 4]);
    assert!(p.allocate().is_none());
    let mut got = got;
    let third = got.remove(2);
    assert_eq!(p.recycle(third), None);
    assert_eq!(p.allocate().map(|e| e.id()), Some(2));
    assert!(p.allocate().is_none());
}

#[test]
fn queries_match_the_queues() {
    let mut c = Channel::new();
    c.init();
    assert!(!c.holds(4));
    assert_eq!(c.put(Envelope::new(Mut::new(4))), None);
    assert!(c.holds(4));
    assert!(!c.holds(5));
    let mut p: Pool<u32> = Pool::new();
    p.init(vec![Message::new(0), Message::new(0)]);
    assert!(!p.is_in_use(0));
    let e = p.allocate().unwrap();
    assert!(p.is_in_use(0));
    assert!(!p.is_in_use(1));
    assert_eq!(p.recycle(e), None);
    assert!(!p.is_in_use(0));
}

#[test]
fn pool_payloads() {
    let mut p: Pool<u32> = Pool::new();
    p.init(vec![Message::new(5), Message::new(6)]);
    let e = p.allocate().unwrap();
    assert_eq!(*p.payload(e.id()), 5);
    p.set_payload(e.id(), 11);
    assert_eq!(*p.payload(0), 11);
    assert_eq!(*p.payload(1), 6);
}

#[test]
fn pool_get_waits_for_recycled_message() {
    let mut p: Pool<u8> = Pool::new();
    p.init(vec![Message::new(1)]);
    let e = p.allocate().unwrap();
    let f = ChannelFuture { wb: 0 };
    assert_eq!(ready_id(p.poll_get(&f)), None);
    assert_eq!(p.recycle(e), Some(0));
    assert_eq!(ready_id(p.poll_get(&f)), Some(0));
}

#[test]
fn pool_get_allocates_or_waits() {
    let mut p: Pool<u8> = Pool::new();
    p.init(vec![Message::new(1)]);
    let e = match p.get(7) {
        Ok(e) => e,
        Err(_) => panic!("a fresh message is available"),
    };
    assert_eq!(e.id(), 0);
    let f = match p.get(7) {
        Ok(_) => panic!("no message is available"),
        Err(f) => f,
    };
    assert_eq!(f.wb, 7);
    assert_eq!(ready_id(p.poll_get(&f)), None);
    assert_eq!(p.recycle(e), Some(7));
    assert_eq!(p.take_handed(7).map(|m| m.release()), Some(0));
    assert!(p.take_handed(7).is_none());
}

#[test]
fn block_on_names_the_waiter() {
    let mut c = Channel::new();
    let f = c.block_on(12);
    assert_eq!(f.wb, 12);
    assert_eq!(ready_id(f.poll(&mut c)), None);
    assert_eq!(c.put(Envelope::new(Mut::new(0))), Some(12));
}
