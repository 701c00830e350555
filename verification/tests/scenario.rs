use mg::channel::{ChannelFuture, ChannelPoll};
use mg::msg::{Envelope, Message};
use mg::timer::{TimeoutFuture, TimeoutPoll};
use mg::{Actor, Channel, Executor, Pic, Pool, Timer};

struct DummyPic;

impl Pic for DummyPic {
    fn prio_of(_vector: u16) -> u8 {
        0
    }
    fn interrupt_request(_cpu: u8, _vector: u16) {}
    fn interrupt_prio(vector: u16) -> u8 {
        Self::prio_of(vector)
    }
}

struct ExampleMsg(u32);

const TEST_VECT: u16 = 0;
const PROXY: usize = 0;
const ADDER: usize = 1;

enum ProxyState {
    Start,
    Sleeping(TimeoutFuture),
    Getting(ChannelFuture),
}

enum AdderState {
    Start,
    Receiving(ChannelFuture),
}

struct World {
    timer: Timer<10, 1>,
    pool: Pool<ExampleMsg>,
    queue: Channel,
    sched: Executor<DummyPic, 1, 1>,
    proxy: ProxyState,
    adder: AdderState,
    sum: u32,
}

impl World {
    fn wake(&mut self, actor: usize) {
        let (cpu, vect) = self.sched.activate(actor);
        DummyPic::interrupt_request(cpu, vect);
    }

    fn send(&mut self, msg: Envelope) {
        if let Some(w) = self.queue.put(msg) {
            self.wake(w);
        }
    }

    /// proxy: loop { sleep_for(100); msg = POOL.get(); msg.0 = 1; QUEUE.put(msg) }
    fn call_proxy(&mut self) {
        loop {
            match std::mem::replace(&mut self.proxy, ProxyState::Start) {
                ProxyState::Start => {
                    self.proxy = ProxyState::Sleeping(TimeoutFuture::new(PROXY, 100));
                }
                ProxyState::Sleeping(mut f) => match f.poll(&mut self.timer) {
                    TimeoutPoll::Ready => match self.pool.allocate() {
                        Some(msg) => {
                            self.pool.set_payload(msg.id(), ExampleMsg(1));
                            self.send(msg);
                        }
                        None => self.proxy = ProxyState::Getting(ChannelFuture { wb: PROXY }),
                    },
                    TimeoutPoll::Pending => {
                        self.proxy = ProxyState::Sleeping(f);
                        return;
                    }
                    TimeoutPoll::WakeNow => {
                        self.proxy = ProxyState::Sleeping(f);
                        self.wake(PROXY);
                        return;
                    }
                },
                ProxyState::Getting(f) => match self.pool.poll_get(&f) {
                    ChannelPoll::Ready(m) => {
                        let msg = Envelope::new(m);
                        self.pool.set_payload(msg.id(), ExampleMsg(1));
                        self.send(msg);
                    }
                    ChannelPoll::Pending => {
                        self.proxy = ProxyState::Getting(f);
                        return;
                    }
                },
            }
        }
    }

    /// adder: loop { msg = QUEUE.block_on(); sum += msg.0 }
    fn call_adder(&mut self) {
        loop {
            match std::mem::replace(&mut self.adder, AdderState::Start) {
                AdderState::Start => {
                    self.adder = AdderState::Receiving(ChannelFuture { wb: ADDER });
                }
                AdderState::Receiving(f) => match f.poll(&mut self.queue) {
                    ChannelPoll::Ready(m) => {
                        let msg = Envelope::new(m);
                        self.sum += self.pool.payload(msg.id()).0;
                        if let Some(w) = self.pool.recycle(msg) {
                            self.wake(w);
                        }
                    }
                    ChannelPoll::Pending => {
                        self.adder = AdderState::Receiving(f);
                        return;
                    }
                },
            }
        }
    }

    fn schedule(&mut self, vect: u16) {
        let prio = DummyPic::interrupt_prio(vect);
        while let Some(actor) = self.sched.next_actor(prio) {
            if actor == PROXY {
                self.call_proxy();
            } else {
                self.call_adder();
            }
        }
    }

    fn tick(&mut self) {
        for w in self.timer.tick() {
            self.wake(w);
        }
    }
}

#[test]
fn main() {
    let mut world = World {
        timer: Timer::new(),
        pool: Pool::new(),
        queue: Channel::new(),
        sched: Executor::new(),
        proxy: ProxyState::Start,
        adder: AdderState::Start,
        sum: 0,
    };
    world.queue.init();
    world.timer.init();
    world.sched.init();
    world.pool.init((0..5).map(|_| Message::new(ExampleMsg(0))).collect());

    let actor1 = Actor::new(0, TEST_VECT, 0);
    let actor2 = Actor::new(0, TEST_VECT, 0);
    let reqs = world.sched.run(vec![actor1, actor2]);
    assert_eq!(reqs, vec![(0, TEST_VECT), (0, TEST_VECT)]);
    for (cpu, vect) in reqs {
        DummyPic::interrupt_request(cpu, vect);
    }

    for _ in 0..10 {
        for _ in 0..100 {
            world.tick();
        }
        world.schedule(TEST_VECT);
    }
    assert_eq!(world.sum, 9);
}
