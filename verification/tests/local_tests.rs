use netcat::rpp::median::median;
use rand::{self, Rng};
use std::time::{Instant, SystemTime};

#[test]
fn local_latency() {
    // A buffer of separate pages keeps the prefetcher from telling hits and misses apart for us
    let buf = vec![vec![0u8; 4096]; 8388608 / 4096];
    let mut rng = rand::thread_rng();
    let mut lats = Vec::new();
    let mut fail_cnt = 0;

    for _ in 0..80000 {
        let ofs = rng.gen_range(0, 8388608);
        println!("Addr: {}", ofs);
        let ofs_hi = (ofs as usize) >> 12;
        let ofs_lo = (ofs as usize) & 0xfff;

        let sub_buf = &buf[ofs_hi];

        // Measure evicted x time
        let now = Instant::now();
        let _x1 = sub_buf[ofs_lo];
        let elapsed1 = now.elapsed().as_nanos();

        // Measure in cache x time
        let now = Instant::now();
        let _x2 = sub_buf[ofs_lo];
        let elapsed2 = now.elapsed().as_nanos();

        if elapsed1 <= elapsed2 {
            fail_cnt += 1;
            continue;
        }

        println!("Evicted address access time: {}", elapsed1);
        println!("In cache address access time: {}", elapsed2);
        println!("Difference: {}", elapsed1 - elapsed2);

        lats.push((elapsed1 - elapsed2) as u64);
    }

    println!("Fails: {}", fail_cnt);
    match median(&lats) {
        Some(m) => println!("Median: {}", m),
        None => println!("Median: none"),
    }
}

#[test]
fn cache_allocation_test() {
    let mut buf = vec![1u8; 8388608];
    let mut rng = rand::thread_rng();

    // Evict the whole cache
    for v in buf.iter_mut() {
        *v = rand::random();
    }

    let ofs = rng.gen_range(0, 8388608);
    buf[ofs] = rng.gen();
    let now = SystemTime::now();
    let _x = buf[ofs];
    let elapsed1 = now.elapsed().unwrap().as_nanos();

    let now = SystemTime::now();
    let _x = buf[ofs];
    let elapsed2 = now.elapsed().unwrap().as_nanos();

    println!("Writing to the address: {}", ofs);
    println!("First read: {}", elapsed1);
    println!("Second read: {}", elapsed2);
}
