use quota_arc::buffer::Buffer;
use quota_arc::params::Params;
use quota_arc::types::{Operation, Page, Tenant};

fn access(ti: u8, pi: u32) -> Operation {
    Operation {
        tenant: Tenant(ti),
        page: Page(pi),
    }
}

fn config(n: usize, q: usize, quota: (usize, usize, usize)) -> Params {
    Params {
        num_tenants_n: n,
        buffer_size_q: q,
        priorities_lt: vec![1; n],
        db_size_dt: vec![10; n],
        buffer_sizes_qt: vec![quota; n],
    }
}

#[test]
fn locations_stay_in_range_under_contention() {
    let mut buffer = Buffer::with_params(config(3, 4, (1, 1, 3)));
    let mut seen = 0;
    for round in 0..6u32 {
        for t in 1..=3u8 {
            for page in 1..=4u32 {
                let p = (page + round + t as u32) % 10 + 1;
                let loc = buffer.locate(access(t, p)).expect("a donor exists");
                assert!((1..=4).contains(&loc));
                assert!(buffer.check_invariants());
                seen += 1;
            }
        }
    }
    assert_eq!(seen, 72);
    assert!(buffer.len() <= 4);
}

#[test]
fn repeated_access_is_a_hit_at_the_same_location() {
    let mut buffer = Buffer::with_params(config(2, 10, (1, 2, 3)));
    let first = buffer.locate(access(2, 7));
    let misses = buffer.counters()[1].misses;
    let hits = buffer.counters()[1].hits;
    assert_eq!(buffer.locate(access(2, 7)), first);
    assert_eq!(buffer.counters()[1].hits, hits + 1);
    assert_eq!(buffer.counters()[1].misses, misses);
}

#[test]
fn growth_hands_out_consecutive_locations() {
    let mut buffer = Buffer::with_params(config(2, 10, (0, 2, 5)));
    assert_eq!(buffer.locate(access(1, 1)), Some(1));
    assert_eq!(buffer.locate(access(2, 1)), Some(2));
    assert_eq!(buffer.locate(access(1, 2)), Some(3));
    assert_eq!(buffer.len(), 3);
    assert_eq!(buffer.now(), 3);
}

#[test]
fn self_eviction_counts_an_eviction() {
    let mut buffer = Buffer::with_params(config(1, 10, (1, 1, 1)));
    buffer.locate(access(1, 1));
    buffer.locate(access(1, 2));
    let c = buffer.counters()[0];
    assert_eq!((c.hits, c.misses, c.evictions), (0, 2, 1));
}

#[test]
fn tenant_with_no_room_gets_none_and_nothing_changes() {
    let mut buffer = Buffer::with_params(config(1, 10, (0, 0, 0)));
    assert_eq!(buffer.locate(access(1, 1)), None);
    assert_eq!(buffer.len(), 0);
    assert_eq!(buffer.now(), 0);
    assert_eq!(buffer.counters()[0].misses, 0);
}

#[test]
fn floors_protected_when_no_donor_remains() {
    // Tenant 1 fills the buffer at its floor; tenant 2 (floor 0) finds no donor.
    let params = Params {
        num_tenants_n: 2,
        buffer_size_q: 2,
        priorities_lt: vec![1; 2],
        db_size_dt: vec![10; 2],
        buffer_sizes_qt: vec![(2, 2, 2), (0, 0, 2)],
    };
    let mut buffer = Buffer::with_params(params);
    assert_eq!(buffer.locate(access(1, 1)), Some(1));
    assert_eq!(buffer.locate(access(1, 2)), Some(2));
    assert_eq!(buffer.locate(access(2, 1)), None);
    assert_eq!(buffer.locate(access(1, 1)), Some(1));
}

#[test]
fn ghost_hit_in_b2_returns_to_t2() {
    let mut buffer = Buffer::with_params(config(1, 10, (1, 1, 1)));
    let a = buffer.locate(access(1, 1));
    buffer.locate(access(1, 1)); // promoted to T2
    assert_eq!(buffer.locate(access(1, 2)), a); // (1,1) evicted into B2
    assert_eq!(buffer.locate(access(1, 1)), a); // B2 hit takes the slot back
    let c = buffer.counters()[0];
    assert_eq!((c.hits, c.misses, c.evictions), (1, 3, 2));
}

#[test]
fn validity_of_quotas() {
    assert!(config(2, 10, (1, 1, 1)).is_valid());
    assert!(!config(3, 2, (1, 1, 1)).is_valid());
    assert!(!config(1, 10, (2, 1, 3)).is_valid());
    let mut short = config(2, 10, (1, 1, 1));
    short.db_size_dt.pop();
    assert!(!short.is_valid());
}

#[test]
fn tenant_index_counts_from_zero() {
    assert_eq!(Tenant(1).index(), 0);
    assert_eq!(Tenant(255).index(), 254);
}

#[test]
fn tenant_never_exceeds_qmax() {
    let mut buffer = Buffer::with_params(config(1, 10, (0, 1, 2)));
    let mut locations = Vec::new();
    for page in 1..=5u32 {
        let loc = buffer.locate(access(1, page)).unwrap();
        if !locations.contains(&loc) {
            locations.push(loc);
        }
    }
    assert_eq!(locations, vec![1, 2]);
    assert_eq!(buffer.len(), 2);
    assert!(buffer.check_invariants());
}
