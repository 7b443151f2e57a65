use makeitshort::id_generator::{GenerateError, Snowflake};
use std::collections::HashSet;
use std::sync::{Arc, Mutex};

#[test]
fn id_generator_test() {
    let mut machine1 = Snowflake::new(1);
    let mut machine2 = Snowflake::new(2);
    let mut machine3 = Snowflake::new(3);

    let mut arr = Vec::<u64>::with_capacity(4096 * 3);
    for _ in 0..4096 {
        arr.push(machine1.generate().unwrap());
        arr.push(machine2.generate().unwrap());
        arr.push(machine3.generate().unwrap());
    }
    assert_eq!(arr.len(), 4096 * 3);

    arr.dedup();
    assert_eq!(arr.len(), 4096 * 3);
}

#[test]
fn construct_id_layout() {
    assert_eq!(Snowflake::construct_id(0, 0, 0), 0);
    assert_eq!(Snowflake::construct_id(1, 0, 0), 1 << 22);
    assert_eq!(Snowflake::construct_id(0, 1, 0), 1 << 12);
    assert_eq!(Snowflake::construct_id(0, 0, 1), 1);
    assert_eq!(Snowflake::construct_id(5, 3, 7), (5 << 22) | (3 << 12) | 7);
    assert_eq!(Snowflake::construct_id(0, 1024 + 2, 4096 + 9), (2 << 12) | 9);
    assert_eq!(Snowflake::construct_id(0x1ff_ffff_ffff, 1023, 4095), u64::MAX >> 1);
}

#[test]
fn unpack_inverts_construct_id() {
    for &(t, w, s) in &[(0u64, 0u64, 0u64), (1, 2, 3), (123456789, 1023, 4095), (0x1ff_ffff_ffff, 512, 2048)] {
        assert_eq!(Snowflake::unpack(Snowflake::construct_id(t, w, s)), (t, w, s));
    }
}

#[test]
fn fills_one_time_unit_then_refuses() {
    let mut g = Snowflake::new(7);
    let mut prev: Option<u64> = None;
    for i in 0..4096u64 {
        let id = g.generate_at(100).unwrap();
        assert_eq!(Snowflake::unpack(id), (100, 7, i));
        if let Some(p) = prev {
            assert!(p < id);
        }
        prev = Some(id);
    }
    assert_eq!(g.generate_at(100), Err(GenerateError::CapacityExceeded));
    assert_eq!(g.generate_at(99), Err(GenerateError::CapacityExceeded));
}

#[test]
fn rollover_resets_sequence() {
    let mut g = Snowflake::new(1);
    for _ in 0..4096 {
        g.generate_at(10).unwrap();
    }
    assert_eq!(g.generate_at(10), Err(GenerateError::CapacityExceeded));
    let id = g.generate_at(11).unwrap();
    assert_eq!(Snowflake::unpack(id), (11, 1, 0));
    assert_eq!(id, (11 << 22) | (1 << 12));
    assert_eq!(Snowflake::unpack(g.generate_at(11).unwrap()), (11, 1, 1));
}

#[test]
fn clock_regression_keeps_last_time_unit() {
    let mut g = Snowflake::new(4);
    assert_eq!(Snowflake::unpack(g.generate_at(50).unwrap()), (50, 4, 0));
    assert_eq!(Snowflake::unpack(g.generate_at(49).unwrap()), (50, 4, 1));
    assert_eq!(Snowflake::unpack(g.generate_at(0).unwrap()), (50, 4, 2));
}

#[test]
fn time_unit_beyond_41_bits_is_clock_error() {
    let mut g = Snowflake::new(4);
    assert_eq!(g.generate_at(1u64 << 41), Err(GenerateError::ClockError));
    assert_eq!(Snowflake::unpack(g.generate_at((1u64 << 41) - 1).unwrap()), ((1u64 << 41) - 1, 4, 0));
}

#[test]
fn workers_issue_disjoint_ids() {
    let mut a = Snowflake::new(1);
    let mut b = Snowflake::new(2);
    let mut seen = HashSet::new();
    for t in [3u64, 3, 4, 2, 4, 5] {
        for _ in 0..100 {
            assert!(seen.insert(a.generate_at(t).unwrap()));
            assert!(seen.insert(b.generate_at(t).unwrap()));
        }
    }
    assert_eq!(seen.len(), 1200);
}

#[test]
fn shared_allocator_gives_distinct_ids() {
    let g = Arc::new(Mutex::new(Snowflake::new(9)));
    let handles: Vec<Arc<Mutex<Snowflake>>> = (0..8).map(|_| Arc::clone(&g)).collect();
    let mut all = Vec::new();
    for round in 0..400u64 {
        for h in &handles {
            all.push(h.lock().unwrap().generate_at(77 + round / 100).unwrap());
        }
    }
    let n = all.len();
    let set: HashSet<u64> = all.into_iter().collect();
    assert_eq!(n, 3200);
    assert_eq!(set.len(), n);
}

#[test]
fn generate_reads_the_clock() {
    let mut g = Snowflake::new(5);
    let id = g.generate().unwrap();
    let (t, w, s) = Snowflake::unpack(id);
    assert!(t > 0);
    assert_eq!(w, 5);
    assert_eq!(s, 0);
}

#[test]
fn reading_before_reference_epoch_is_clock_error() {
    let mut g = Snowflake::new(6);
    assert_eq!(g.generate_at_unix_secs(0), Err(GenerateError::ClockError));
    assert_eq!(g.generate_at_unix_secs(1672498799), Err(GenerateError::ClockError));
    assert_eq!(Snowflake::unpack(g.generate_at_unix_secs(1672498800).unwrap()), (0, 6, 0));
}

#[test]
fn unix_seconds_are_counted_from_reference_epoch() {
    let mut g = Snowflake::new(6);
    let id = g.generate_at_unix_secs(1672498800 + 100).unwrap();
    assert_eq!(Snowflake::unpack(id), (100, 6, 0));
    assert_eq!(id, (100 << 22) | (6 << 12));
    assert_eq!(g.generate_at_unix_secs(1000), Err(GenerateError::ClockError));
    assert_eq!(Snowflake::unpack(g.generate_at_unix_secs(1672498800 + 100).unwrap()), (100, 6, 1));
}
