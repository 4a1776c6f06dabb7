use netcat::connection::{Address, CacheConnector, MemoryConnector, PacketSender, Time};
use netcat::error::Error;
use netcat::online_tracker::tracking::SyncStatus;
use netcat::online_tracker::{LatsEntry, OnlineTrackerBuilder};
use netcat::output::Record;
use netcat::rpp::params::CacheParams;
use netcat::rpp::rpp_connector::RppConnector;
use netcat::rpp::{ProbeResult, Rpp, SetCode, NUM_VARIANTS};
use std::cell::RefCell;
use std::collections::{HashMap, HashSet, VecDeque};
use std::io;
use std::rc::Rc;

const HIT: Time = 100;
const MISS: Time = 400;

/// A cache with least-recently-used replacement, and a machine behind it
/// whose receive ring lies on one page color.
struct World {
    ways: usize,
    colors: usize,
    lines: HashMap<(usize, usize), VecDeque<Address>>,
    accesses: u64,
    fail_from: Option<u64>,
    ring_color: Option<usize>,
    traffic_every: Option<u64>,
    calls: Vec<(char, usize)>,
    roomy_variants: bool,
}

impl World {
    fn new(ways: usize, colors: usize) -> Rc<RefCell<World>> {
        Rc::new(RefCell::new(World {
            ways,
            colors,
            lines: HashMap::new(),
            accesses: 0,
            fail_from: None,
            ring_color: None,
            traffic_every: None,
            calls: Vec::new(),
            roomy_variants: false,
        }))
    }

    fn set_of(&self, addr: Address) -> (usize, usize) {
        let page = addr >> 12;
        ((page * 7 + 3) % self.colors, (addr & 0xFC0) >> 6)
    }

    /// Loads the address; tells whether it was cached.
    fn touch(&mut self, addr: Address) -> bool {
        let key = self.set_of(addr);
        // where the variants are roomy, only the sets of variant 0 ever evict
        let ways = if self.roomy_variants && key.1 != 0 { usize::MAX } else { self.ways };
        let lines = self.lines.entry(key).or_insert_with(VecDeque::new);
        if let Some(at) = lines.iter().position(|a| *a == addr) {
            lines.remove(at);
            lines.push_back(addr);
            true
        } else {
            if lines.len() == ways {
                lines.pop_front();
            }
            lines.push_back(addr);
            false
        }
    }

    /// A packet arrives: the machine writes to every set of the ring color.
    fn packet(&mut self) {
        let ring_color = match self.ring_color {
            Some(c) => c % self.colors,
            None => return,
        };
        let mut page = 1 << 20;
        while (page * 7 + 3) % self.colors != ring_color {
            page += 1;
        }
        for variant in 0..64 {
            self.touch((page << 12) | (variant << 6));
        }
    }

    fn step(&mut self) -> io::Result<()> {
        self.accesses += 1;
        if let Some(limit) = self.fail_from {
            if self.accesses >= limit {
                return Err(io::Error::new(io::ErrorKind::NotConnected, "the link is down"));
            }
        }
        if let Some(every) = self.traffic_every {
            if self.accesses % every == 0 {
                self.packet();
            }
        }
        Ok(())
    }
}

struct SimConn(Rc<RefCell<World>>);

impl CacheConnector for SimConn {
    type Item = u8;

    fn cache(&mut self, addr: Address) -> io::Result<()> {
        let mut w = self.0.borrow_mut();
        w.step()?;
        w.calls.push(('c', addr));
        w.touch(addr);
        Ok(())
    }

    fn time_access(&mut self, addr: Address) -> io::Result<Time> {
        let mut w = self.0.borrow_mut();
        w.step()?;
        w.calls.push(('t', addr));
        if w.touch(addr) {
            Ok(HIT)
        } else {
            Ok(MISS)
        }
    }

    fn reserve(&mut self, size: usize) {
        self.0.borrow_mut().calls.push(('r', size));
    }
}

struct SimSender(Rc<RefCell<World>>);

impl PacketSender for SimSender {
    fn send_packet(&mut self) -> io::Result<()> {
        self.0.borrow_mut().packet();
        Ok(())
    }
}

struct SharedSink(Rc<RefCell<Vec<LatsEntry>>>);

impl Record<LatsEntry> for SharedSink {
    fn record(&mut self, data: LatsEntry) -> io::Result<()> {
        self.0.borrow_mut().push(data);
        Ok(())
    }
}

/// Two ways, `colors` colors, `pages` pages to work with.
fn small_cache(colors: usize, pages: usize) -> CacheParams {
    CacheParams::new(64, 2, 2, colors * 64 * 2 * 64, pages)
}

/// An engine with a trained classifier, its pools untouched, and no set.
fn engine_without_sets(world: &Rc<RefCell<World>>, pages: usize) -> Rpp<SimConn> {
    let rpp = Rpp::with_params(SimConn(world.clone()), true, small_cache(0, pages))
        .expect("the engine was not set up");
    assert_eq!(rpp.colors_len(), 0);
    rpp
}

#[test]
fn new_rpp_test() {
    let world = World::new(12, 128);
    world.borrow_mut().fail_from = Some(1);
    let conn = SimConn(world.clone());
    let r = Rpp::new(conn, false);
    assert!(matches!(r, Err(Error::Transport(_))));
}

#[test]
fn engine_builds_every_color() {
    let world = World::new(2, 3);
    let mut rpp = Rpp::with_params(SimConn(world.clone()), true, small_cache(3, 60))
        .expect("the sets were not built");
    assert!(rpp.is_quiet());
    assert_eq!(rpp.colors_len(), 3);
    assert_eq!(rpp.colors(), vec![0, 1, 2]);
    let codes = rpp.iter();
    assert_eq!(codes.len(), 3 * NUM_VARIANTS);
    for (n, code) in codes.iter().enumerate() {
        assert_eq!(*code, SetCode(n / NUM_VARIANTS, n % NUM_VARIANTS));
        assert!(rpp.contains(code));
    }
    assert!(!rpp.contains(&SetCode(3, 0)));
    assert!(!rpp.contains(&SetCode(0, NUM_VARIANTS)));
    for color in rpp.colors() {
        assert_eq!(rpp.color_len(color), NUM_VARIANTS);
        assert_eq!(rpp.iter_color(color), (0..NUM_VARIANTS).collect::<Vec<usize>>());
    }
    let mut addresses: HashSet<Address> = HashSet::new();
    let mut cache_sets: HashSet<(usize, usize)> = HashSet::new();
    for code in codes.iter() {
        let set = rpp.addresses(code);
        // an address for each way
        assert_eq!(set.len(), 2);
        let w = world.borrow();
        let home = w.set_of(set[0]);
        for a in set.iter() {
            // no address serves two sets
            assert!(addresses.insert(*a));
            // the addresses of a set lie in one set of the cache, of the variant of the code
            assert_eq!(w.set_of(*a), home);
            assert_eq!((*a & 0xFC0) >> 6, code.1);
            assert!(*a < 60 * 4096);
        }
        // no two sets of the engine lie in the same set of the cache
        assert!(cache_sets.insert(home));
    }
    let mut homes: HashMap<usize, HashSet<usize>> = HashMap::new();
    for code in codes.iter() {
        let home = world.borrow().set_of(rpp.addresses(code)[0]);
        homes.entry(code.0).or_insert_with(HashSet::new).insert(home.0);
    }
    // a color of the engine is a color of the cache
    assert!(homes.values().all(|colors| colors.len() == 1));
    // a primed set is found as it was left
    for code in codes.iter() {
        rpp.prime(code).unwrap();
        match rpp.probe(code).unwrap() {
            ProbeResult::Stale(lats) => assert_eq!(lats, vec![HIT, HIT]),
            ProbeResult::Activated(lats) => panic!("a primed set was activated: {:?}", lats),
        }
    }
}

#[test]
fn primed_set_registers_the_machine() {
    let world = World::new(2, 2);
    world.borrow_mut().ring_color = Some(1);
    let mut rpp = Rpp::with_params(SimConn(world.clone()), true, small_cache(2, 40))
        .expect("the sets were not built");
    let codes = rpp.iter();
    assert_eq!(codes.len(), 2 * NUM_VARIANTS);
    let mut activated_colors: HashSet<usize> = HashSet::new();
    for code in codes.iter() {
        rpp.prime(code).unwrap();
        world.borrow_mut().packet();
        let p = rpp.probe(code).unwrap();
        if p.is_activated() {
            activated_colors.insert(code.0);
        }
    }
    // the packets touch the sets of one color of the cache, which is one color of the engine
    assert_eq!(activated_colors.len(), 1);
    let color = *activated_colors.iter().next().unwrap();
    let window: Vec<SetCode> = (0..10).map(|i| SetCode(color, i)).collect();
    rpp.prime_all(&window).unwrap();
    let quiet = rpp.probe_all(&window).unwrap();
    assert_eq!(quiet.len(), 10);
    assert!(quiet.iter().all(|p| p.is_stale()));
    rpp.prime_all(&window).unwrap();
    world.borrow_mut().packet();
    let loud = rpp.probe_all(&window).unwrap();
    assert!(loud.iter().all(|p| p.is_activated()));
    for p in loud {
        match p {
            ProbeResult::Activated(lats) => {
                assert_eq!(lats.len(), 2);
                assert_eq!(lats[0], MISS);
            }
            ProbeResult::Stale(_) => unreachable!(),
        }
    }
}

#[test]
fn engine_without_colors_builds_nothing() {
    let world = World::new(2, 1);
    let rpp = engine_without_sets(&world, 10);
    assert_eq!(rpp.colors(), Vec::<usize>::new());
    assert_eq!(rpp.iter(), Vec::<SetCode>::new());
}

#[test]
fn engine_gives_up_on_an_empty_pool() {
    let world = World::new(2, 2);
    let r = Rpp::with_params(SimConn(world.clone()), true, small_cache(2, 0));
    assert!(matches!(r, Err(Error::Exhausted)));
    let world = World::new(2, 2);
    let r = Rpp::with_params(SimConn(world.clone()), true, small_cache(2, 2));
    assert!(matches!(r, Err(Error::Exhausted)));
}

#[test]
fn engine_gives_up_where_nothing_is_evicted() {
    // a cache of a hundred ways holds all sixteen pages: no address is ever evicted
    let world = World::new(100, 1);
    let r = Rpp::with_params(SimConn(world.clone()), true, small_cache(1, 16));
    assert!(matches!(r, Err(Error::Exhausted)));
}

#[test]
fn engine_hands_on_a_failing_connection() {
    // the connection fails in the middle of the training
    let world = World::new(2, 2);
    world.borrow_mut().fail_from = Some(50);
    let r = Rpp::with_params(SimConn(world.clone()), true, small_cache(2, 40));
    assert!(matches!(r, Err(Error::Transport(_))));
    assert_eq!(world.borrow().accesses, 50);
    // the training takes three accesses for each of the forty addresses; the
    // connection fails for good when the first set is to be built
    let world = World::new(2, 2);
    world.borrow_mut().fail_from = Some(121);
    let r = Rpp::with_params(SimConn(world.clone()), true, small_cache(2, 40));
    assert!(matches!(r, Err(Error::Transport(_))));
    // one try and ten more
    assert_eq!(world.borrow().accesses, 120 + 11);
}

#[test]
fn check_evicts_follows_the_cache() {
    let world = World::new(2, 1);
    let mut rpp = engine_without_sets(&world, 8);
    // all pages share the one color: two other addresses evict a third
    assert!(rpp.check_evicts(&[4096, 8192], 0).unwrap());
    assert!(!rpp.check_evicts(&[4096], 0).unwrap());
    assert!(!rpp.check_evicts(&[], 0).unwrap());
    // an address of another variant lies in another set
    assert!(!rpp.check_evicts(&[4096 + 64, 8192 + 64], 0).unwrap());
    // the address itself, loaded last, stays
    assert!(!rpp.check_evicts(&[4096, 8192, 0], 0).unwrap());
}

#[test]
fn forward_selection_starts_with_one_more_than_the_ways() {
    // a pool of exactly three addresses for two ways
    let world = World::new(2, 1);
    let mut rpp = engine_without_sets(&world, 3);
    let s = rpp.forward_selection(0, 8192).expect("forward selection failed");
    assert_eq!(s, vec![0, 4096]);
    // forty addresses: a tenth of them is more than three
    let world = World::new(2, 1);
    let mut rpp = engine_without_sets(&world, 40);
    let s = rpp.forward_selection(0, 39 * 4096).expect("forward selection failed");
    assert_eq!(s, vec![0, 4096, 8192]);
    let s = rpp.forward_selection(5, 64 * 5).expect("forward selection failed");
    assert_eq!(s, vec![64 * 5, 4096 + 64 * 5, 8192 + 64 * 5]);
}

#[test]
fn forward_selection_widens_the_subset() {
    // two colors: the pages 0, 2, 4, .. share a color, and so do 1, 3, 5, ..
    let world = World::new(2, 2);
    let mut rpp = engine_without_sets(&world, 30);
    // page 29 is congruent to the odd pages: the first subset, of two
    // addresses, holds one of them only, and so does the second
    let s = rpp.forward_selection(0, 29 * 4096).expect("forward selection failed");
    assert_eq!(s, vec![0, 4096, 8192, 3 * 4096]);
}

#[test]
fn forward_selection_reports_an_exhausted_pool() {
    let world = World::new(2, 1);
    let mut rpp = engine_without_sets(&world, 2);
    let before = world.borrow().accesses;
    assert!(matches!(rpp.forward_selection(0, 0), Err(Error::Exhausted)));
    assert_eq!(world.borrow().accesses, before);
}

#[test]
fn forward_selection_reports_that_nothing_evicts() {
    let world = World::new(100, 1);
    let mut rpp = engine_without_sets(&world, 12);
    assert!(matches!(rpp.forward_selection(0, 0), Err(Error::NoEviction)));
}

#[test]
fn forward_selection_hands_on_a_failure() {
    let world = World::new(2, 1);
    let mut rpp = engine_without_sets(&world, 12);
    let now = world.borrow().accesses;
    world.borrow_mut().fail_from = Some(now + 2);
    assert!(matches!(rpp.forward_selection(0, 0), Err(Error::Transport(_))));
}

#[test]
fn backward_selection_leaves_a_set_of_the_right_size_alone() {
    let world = World::new(2, 1);
    let mut rpp = engine_without_sets(&world, 12);
    let before = world.borrow().accesses;
    let mut s = vec![4096, 8192];
    rpp.backward_selection(&mut s, 0).expect("backward selection failed");
    assert_eq!(s, vec![4096, 8192]);
    assert_eq!(world.borrow().accesses, before);
    // whether the set evicts the address does not matter then
    let mut s = vec![64, 128];
    rpp.backward_selection(&mut s, 0).expect("backward selection failed");
    assert_eq!(s, vec![64, 128]);
    assert_eq!(world.borrow().accesses, before);
}

#[test]
fn backward_selection_refuses_a_narrow_set() {
    let world = World::new(2, 1);
    let mut rpp = engine_without_sets(&world, 12);
    let before = world.borrow().accesses;
    let mut s = vec![4096];
    let r = rpp.backward_selection(&mut s, 0);
    assert!(matches!(r, Err(Error::NarrowedBelowMinimum)));
    assert_eq!(s, vec![4096]);
    let mut s: Vec<usize> = Vec::new();
    let r = rpp.backward_selection(&mut s, 0);
    assert!(matches!(r, Err(Error::NarrowedBelowMinimum)));
    assert_eq!(world.borrow().accesses, before);
}

#[test]
fn backward_selection_narrows_to_the_ways() {
    let world = World::new(2, 1);
    let mut rpp = engine_without_sets(&world, 12);
    // ten congruent addresses: every chunk is redundant, the first one goes each time
    let mut s: Vec<usize> = (1..11).map(|p| p * 4096).collect();
    rpp.backward_selection(&mut s, 0).expect("backward selection failed");
    assert_eq!(s, vec![9 * 4096, 10 * 4096]);
}

#[test]
fn backward_selection_keeps_what_evicts() {
    // two colors: of these addresses only the pages 2 and 4 are congruent to page 0
    let world = World::new(2, 2);
    let mut rpp = engine_without_sets(&world, 12);
    let mut s: Vec<usize> = vec![4096, 2 * 4096, 3 * 4096, 4 * 4096, 5 * 4096, 7 * 4096];
    assert!(rpp.check_evicts(&s, 0).unwrap());
    rpp.backward_selection(&mut s, 0).expect("backward selection failed");
    assert_eq!(s, vec![2 * 4096, 4 * 4096]);
    assert!(rpp.check_evicts(&s, 0).unwrap());
}

#[test]
fn backward_selection_hands_on_a_failure() {
    let world = World::new(2, 1);
    let mut rpp = engine_without_sets(&world, 12);
    let now = world.borrow().accesses;
    world.borrow_mut().fail_from = Some(now + 1);
    let mut s: Vec<usize> = vec![4096, 8192, 3 * 4096];
    let r = rpp.backward_selection(&mut s, 0);
    assert!(matches!(r, Err(Error::Transport(_))));
    assert_eq!(s, vec![4096, 8192, 3 * 4096]);
}

#[test]
fn an_empty_candidate_is_refused() {
    let world = World::new(2, 2);
    let mut rpp = Rpp::with_params(SimConn(world.clone()), true, small_cache(1, 40))
        .expect("the sets were not built");
    let before = world.borrow().accesses;
    assert!(matches!(rpp.is_unique(&[], 0), Err(Error::EmptySet)));
    assert_eq!(world.borrow().accesses, before);
    let world = World::new(2, 1);
    let mut rpp = engine_without_sets(&world, 12);
    assert!(matches!(rpp.is_unique(&[], 3), Err(Error::EmptySet)));
}

#[test]
fn a_first_set_is_unique() {
    let world = World::new(2, 1);
    let mut rpp = engine_without_sets(&world, 12);
    let before = world.borrow().accesses;
    assert!(rpp.is_unique(&[4096, 8192], 0).unwrap());
    assert_eq!(world.borrow().accesses, before);
}

#[test]
fn a_set_of_a_built_color_is_not_unique() {
    let world = World::new(2, 2);
    let mut rpp = Rpp::with_params(SimConn(world.clone()), true, small_cache(1, 40))
        .expect("the sets were not built");
    assert_eq!(rpp.colors_len(), 1);
    // pages 100 and 102 are congruent to each other; so are 101 and 103
    let even = vec![100 * 4096, 102 * 4096];
    let odd = vec![101 * 4096, 103 * 4096];
    let unique_even = rpp.is_unique(&even, 0).unwrap();
    let unique_odd = rpp.is_unique(&odd, 0).unwrap();
    assert!(unique_even != unique_odd);
}

struct Parts {
    world: Rc<RefCell<World>>,
    sink: Rc<RefCell<Vec<LatsEntry>>>,
}

fn parts(colors: usize, ring_color: Option<usize>) -> Parts {
    let world = World::new(2, colors);
    world.borrow_mut().ring_color = ring_color;
    Parts { world, sink: Rc::new(RefCell::new(Vec::new())) }
}

#[test]
fn builder_needs_every_collaborator() {
    let p = parts(1, Some(0));
    let r = OnlineTrackerBuilder::<SimConn, SharedSink, SimSender>::new()
        .set_cache(small_cache(0, 8))
        .set_quite(true)
        .finalize();
    assert!(matches!(r, Err(Error::BuilderIncomplete)));
    let r = OnlineTrackerBuilder::<SimConn, SharedSink, SimSender>::new()
        .set_output(SharedSink(p.sink.clone()))
        .set_sender(SimSender(p.world.clone()))
        .set_cache(small_cache(0, 8))
        .finalize();
    assert!(matches!(r, Err(Error::BuilderIncomplete)));
    let r = OnlineTrackerBuilder::<SimConn, SharedSink, SimSender>::new()
        .set_conn(SimConn(p.world.clone()))
        .set_sender(SimSender(p.world.clone()))
        .set_cache(small_cache(0, 8))
        .finalize();
    assert!(matches!(r, Err(Error::BuilderIncomplete)));
    let r = OnlineTrackerBuilder::<SimConn, SharedSink, SimSender>::new()
        .set_conn(SimConn(p.world.clone()))
        .set_output(SharedSink(p.sink.clone()))
        .set_cache(small_cache(0, 8))
        .finalize();
    assert!(matches!(r, Err(Error::BuilderIncomplete)));
    // nothing was accessed for a builder that is incomplete
    assert_eq!(p.world.borrow().accesses, 0);
    let r = OnlineTrackerBuilder::<SimConn, SharedSink, SimSender>::default()
        .set_conn(SimConn(p.world.clone()))
        .set_output(SharedSink(p.sink.clone()))
        .set_sender(SimSender(p.world.clone()))
        .set_cache(small_cache(0, 8))
        .set_quite(true)
        .finalize();
    let tracker = r.expect("a complete builder failed");
    assert!(tracker.is_quiet());
}

#[test]
fn tracking_needs_initialization() {
    let p = parts(1, Some(0));
    let mut tracker = OnlineTrackerBuilder::new()
        .set_conn(SimConn(p.world.clone()))
        .set_output(SharedSink(p.sink.clone()))
        .set_sender(SimSender(p.world.clone()))
        .set_cache(small_cache(0, 8))
        .finalize()
        .expect("a complete builder failed");
    assert!(!tracker.is_quiet());
    tracker.set_quite(true);
    assert!(tracker.is_quiet());
    assert!(matches!(tracker.track(3), Err(Error::Uninitialized)));
    assert!(p.sink.borrow().is_empty());
    // without any color there is no trace to find a pattern in
    assert!(matches!(tracker.init(), Err(Error::NotLocated)));
    assert!(matches!(tracker.track(3), Err(Error::Uninitialized)));
}

#[test]
fn tracker_follows_the_ring() {
    let p = parts(2, Some(1));
    let mut tracker = OnlineTrackerBuilder::new()
        .set_conn(SimConn(p.world.clone()))
        .set_output(SharedSink(p.sink.clone()))
        .set_sender(SimSender(p.world.clone()))
        .set_cache(small_cache(2, 40))
        .set_quite(true)
        .finalize()
        .expect("the sets were not built");
    tracker.init().expect("the ring was not located");
    // other machines send as well
    p.world.borrow_mut().traffic_every = Some(30);
    tracker.track(12).expect("tracking failed");
    let saved = p.sink.borrow();
    // a run that failed has left its measurements behind; the last run has taken twelve
    assert!(saved.len() >= 12);
    let run = &saved[saved.len() - 12..];
    let stats: Vec<SyncStatus> = run.iter().map(|e| e.1).collect();
    // three measurements wait for a packet of another machine, then one is injected
    assert_eq!(&stats[..3], &[SyncStatus::NoSync; 3]);
    assert_eq!(stats[3], SyncStatus::Hit);
    assert!(stats[4..].iter().all(|s| *s != SyncStatus::NoSync));
    for entry in run.iter() {
        assert_eq!(entry.0.len(), 10);
        assert!(entry.0.iter().any(|p| p.is_activated()));
        for probe in entry.0.iter() {
            match probe {
                ProbeResult::Activated(lats) | ProbeResult::Stale(lats) => assert_eq!(lats.len(), 2),
            }
        }
    }
    for pair in run.windows(2) {
        assert!(pair[0].2 <= pair[1].2);
    }
}

#[test]
fn tracker_cannot_locate_a_silent_ring() {
    let p = parts(2, None);
    let mut tracker = OnlineTrackerBuilder::new()
        .set_conn(SimConn(p.world.clone()))
        .set_output(SharedSink(p.sink.clone()))
        .set_sender(SimSender(p.world.clone()))
        .set_cache(small_cache(1, 40))
        .set_quite(true)
        .finalize()
        .expect("the sets were not built");
    // the machine receives nothing: no set is ever activated
    assert!(matches!(tracker.init(), Err(Error::NotLocated)));
    assert!(matches!(tracker.track(1), Err(Error::Uninitialized)));
    assert!(p.sink.borrow().is_empty());

}

/// Memory without a cache in front of it: it notes what is done to it.
struct Memory {
    log: Rc<RefCell<Vec<(char, usize)>>>,
    fail_write_at: Option<usize>,
}

impl MemoryConnector for Memory {
    type Item = u8;

    fn allocate(&mut self, size: usize) {
        self.log.borrow_mut().push(('a', size));
    }

    fn read(&self, ofs: usize) -> io::Result<u8> {
        self.log.borrow_mut().push(('r', ofs));
        Ok(0)
    }

    fn read_timed(&self, ofs: usize) -> io::Result<(u8, Time)> {
        self.log.borrow_mut().push(('t', ofs));
        Ok((0, ofs as Time + 1))
    }

    fn write(&mut self, ofs: usize, _what: &u8) -> io::Result<()> {
        if self.fail_write_at == Some(ofs) {
            return Err(io::Error::new(io::ErrorKind::Other, "no write"));
        }
        self.log.borrow_mut().push(('w', ofs));
        Ok(())
    }

    fn write_timed(&mut self, ofs: usize, what: &u8) -> io::Result<Time> {
        self.write(ofs, what)?;
        Ok(1)
    }
}

#[test]
fn rpp_connector_allocates_lines_by_writes() {
    let log = Rc::new(RefCell::new(Vec::new()));
    let mut conn = RppConnector::new(Memory { log: log.clone(), fail_write_at: Some(192) });
    conn.allocate(4096);
    conn.cache(64).unwrap();
    assert_eq!(conn.time(128).unwrap(), 129);
    conn.evict(&[0, 64, 128]).unwrap();
    assert!(conn.evict(&[256, 192, 320]).is_err());
    assert!(conn.cache(192).is_err());
    assert_eq!(
        *log.borrow(),
        vec![('a', 4096), ('w', 64), ('t', 128), ('w', 0), ('w', 64), ('w', 128), ('w', 256)]
    );
    let mut other: RppConnector<Memory> = Memory { log: log.clone(), fail_write_at: None }.into();
    other.cache(192).unwrap();
    assert_eq!(log.borrow().last(), Some(&('w', 192)));
}

#[test]
fn the_buffer_is_reserved_before_anything_is_accessed() {
    let world = World::new(2, 2);
    let _rpp = Rpp::with_params(SimConn(world.clone()), true, small_cache(2, 40))
        .expect("the sets were not built");
    let w = world.borrow();
    assert_eq!(w.calls[0], ('r', 40 * 4096));
    assert_eq!(w.calls.iter().filter(|c| c.0 == 'r').count(), 1);
    // and nothing beyond the buffer is ever accessed
    assert!(w.calls[1..].iter().all(|c| c.1 < 40 * 4096));
}

#[test]
fn prime_and_probe_visit_the_addresses_in_their_order() {
    let world = World::new(2, 2);
    let mut rpp = Rpp::with_params(SimConn(world.clone()), true, small_cache(2, 40))
        .expect("the sets were not built");
    let codes = vec![SetCode(1, 7), SetCode(0, 63), SetCode(1, 0)];
    let mut cached = Vec::new();
    let mut timed = Vec::new();
    for code in codes.iter() {
        for a in rpp.addresses(code) {
            cached.push(('c', a));
            timed.push(('t', a));
        }
    }
    world.borrow_mut().calls.clear();
    rpp.prime_all(&codes).unwrap();
    assert_eq!(world.borrow().calls, cached);
    world.borrow_mut().calls.clear();
    rpp.probe_all(&codes).unwrap();
    assert_eq!(world.borrow().calls, timed);
    world.borrow_mut().calls.clear();
    rpp.prime(&codes[1]).unwrap();
    rpp.probe(&codes[1]).unwrap();
    let set = rpp.addresses(&codes[1]);
    assert_eq!(
        world.borrow().calls,
        vec![('c', set[0]), ('c', set[1]), ('t', set[0]), ('t', set[1])]
    );
}

#[test]
fn a_check_caches_the_address_then_the_set_and_times_the_address() {
    let world = World::new(2, 1);
    let mut rpp = engine_without_sets(&world, 8);
    world.borrow_mut().calls.clear();
    rpp.check_evicts(&[4096, 8192, 64], 128).unwrap();
    assert_eq!(
        world.borrow().calls,
        vec![('c', 128), ('c', 4096), ('c', 8192), ('c', 64), ('t', 128)]
    );
}

#[test]
fn forward_selection_checks_one_prefix_after_the_other() {
    let world = World::new(2, 2);
    let mut rpp = engine_without_sets(&world, 30);
    world.borrow_mut().calls.clear();
    // the first subset has two addresses; the third one, of four, is the first that evicts
    let s = rpp.forward_selection(0, 29 * 4096).expect("forward selection failed");
    assert_eq!(s.len(), 4);
    let x = 29 * 4096;
    assert_eq!(
        world.borrow().calls,
        vec![
            ('c', x),
            ('c', 0),
            ('c', 4096),
            ('t', x),
            ('c', x),
            ('c', 0),
            ('c', 4096),
            ('c', 8192),
            ('t', x),
            ('c', x),
            ('c', 0),
            ('c', 4096),
            ('c', 8192),
            ('c', 3 * 4096),
            ('t', x)
        ]
    );
}

#[test]
fn backward_selection_checks_chunk_after_chunk() {
    let world = World::new(2, 2);
    let mut rpp = engine_without_sets(&world, 12);
    world.borrow_mut().calls.clear();
    // four addresses, chunks of one: without the first, an odd page, page 0 is still evicted
    let mut s: Vec<usize> = vec![4096, 2 * 4096, 4 * 4096, 6 * 4096];
    rpp.backward_selection(&mut s, 0).expect("backward selection failed");
    // the first round takes out page 1; in the second round the first chunk is page 2,
    // without which the pages 4 and 6 still evict
    assert_eq!(s, vec![4 * 4096, 6 * 4096]);
    assert_eq!(
        world.borrow().calls,
        vec![
            ('c', 0),
            ('c', 2 * 4096),
            ('c', 4 * 4096),
            ('c', 6 * 4096),
            ('t', 0),
            ('c', 0),
            ('c', 4 * 4096),
            ('c', 6 * 4096),
            ('t', 0)
        ]
    );
}

#[test]
fn uniqueness_takes_five_witnesses_of_each_color() {
    let world = World::new(2, 2);
    let mut rpp = Rpp::with_params(SimConn(world.clone()), true, small_cache(2, 40))
        .expect("the sets were not built");
    // addresses of another variant lie in other sets of the cache and evict no witness
    world.borrow_mut().calls.clear();
    assert!(rpp.is_unique(&[64 * 5, 4096 + 64 * 5], 6).unwrap());
    {
        let w = world.borrow();
        // two colors, five checks against each, four accesses to a check
        assert_eq!(w.calls.len(), 2 * 5 * 4);
        let first = rpp.addresses(&SetCode(0, 6));
        let second = rpp.addresses(&SetCode(1, 6));
        for (n, check) in w.calls.chunks(4).enumerate() {
            let witness = check[0].1;
            assert_eq!(check[0].0, 'c');
            assert_eq!(check[1], ('c', 64 * 5));
            assert_eq!(check[2], ('c', 4096 + 64 * 5));
            assert_eq!(check[3], ('t', witness));
            if n < 5 {
                assert!(first.contains(&witness));
            } else {
                assert!(second.contains(&witness));
            }
        }
    }
    // a candidate that falls into the set of the first color is found out there, and
    // the second color is not tried
    world.borrow_mut().calls.clear();
    let taken = rpp.addresses(&SetCode(0, 1));
    let home = world.borrow().set_of(taken[0]);
    let mut same: Vec<Address> = Vec::new();
    let mut page = 100;
    while same.len() < 2 {
        let a = page * 4096 + 64;
        if world.borrow().set_of(a) == home {
            same.push(a);
        }
        page += 1;
    }
    assert!(!rpp.is_unique(&same, 1).unwrap());
    assert_eq!(world.borrow().calls.len(), 5 * 4);
}

#[test]
fn an_engine_without_pages_does_not_need_its_connection() {
    // the link is down from the start; without a page nothing is accessed
    let world = World::new(2, 2);
    world.borrow_mut().fail_from = Some(1);
    let rpp = Rpp::with_params(SimConn(world.clone()), true, small_cache(0, 0))
        .expect("an engine without colors was not set up");
    assert_eq!(rpp.colors_len(), 0);
    assert_eq!(world.borrow().calls, vec![('r', 0)]);
    let world = World::new(2, 2);
    world.borrow_mut().fail_from = Some(1);
    let r = Rpp::with_params(SimConn(world.clone()), true, small_cache(1, 0));
    assert!(matches!(r, Err(Error::Exhausted)));
    assert_eq!(world.borrow().calls, vec![('r', 0)]);
}

#[test]
fn an_engine_without_colors_fails_only_with_its_connection() {
    let world = World::new(2, 2);
    let rpp = Rpp::with_params(SimConn(world.clone()), true, small_cache(0, 2))
        .expect("an engine without colors was not set up");
    assert_eq!(rpp.colors_len(), 0);
    // the training took three accesses for each of the two addresses
    assert_eq!(world.borrow().accesses, 6);
    let world = World::new(2, 2);
    world.borrow_mut().fail_from = Some(4);
    let r = Rpp::with_params(SimConn(world.clone()), true, small_cache(0, 2));
    assert!(matches!(r, Err(Error::Transport(_))));
}

#[test]
fn engine_gives_up_where_no_sibling_can_be_derived() {
    let world = World::new(2, 1);
    world.borrow_mut().roomy_variants = true;
    let r = Rpp::with_params(SimConn(world.clone()), true, small_cache(1, 40));
    assert!(matches!(r, Err(Error::DerivationFailed)));
    // the set of variant 1 was to be derived eleven times, each time for the
    // two seeds, and each seed was checked against the 37 prefixes of the
    // pool that hold 3 to 39 addresses
    let w = world.borrow();
    let checks = w.calls.iter().filter(|c| c.0 == 't' && (c.1 >> 6) & 63 == 1).count();
    assert_eq!(checks, 11 * 2 * 37);
    // no other variant was ever tried
    assert!(w.calls.iter().all(|c| c.0 == 'r' || (c.1 >> 6) & 63 <= 1));
}

#[test]
fn tracker_gives_up_waiting_on_a_dead_link() {
    let p = parts(2, Some(1));
    let mut tracker = OnlineTrackerBuilder::new()
        .set_conn(SimConn(p.world.clone()))
        .set_output(SharedSink(p.sink.clone()))
        .set_sender(SimSender(p.world.clone()))
        .set_cache(small_cache(2, 40))
        .set_quite(true)
        .finalize()
        .expect("the sets were not built");
    tracker.init().expect("the ring was not located");
    let before = p.world.borrow().accesses;
    p.world.borrow_mut().fail_from = Some(before + 1);
    assert!(matches!(tracker.track(3), Err(Error::NoActivation)));
    // a run puts up with a hundred failures, and a hundred runs follow the first
    assert_eq!(p.world.borrow().accesses - before, 101 * 100);
    assert!(p.sink.borrow().is_empty());
}
