use csim::address::AddressPartition;
use csim::cache::{Cache, ConfigError, Outcome};
use csim::valgrind::{MemoryAccess, Operation};

fn load(address: u64) -> MemoryAccess {
    MemoryAccess { operation: Operation::Load, address, size: 1 }
}

#[test]
fn address_decomposition() {
    // (full address, set bits, block bits)
    let addresses: [(u64, u8, u8); 2] = [
        (0xFFFF_FFFF_FF_DEF_ABC, 12, 12),
        (0x12A8_FFFF_DEAD_CFFE, 16, 16),
    ];

    // (tag, set, block)
    let parts: [(u64, u64, u64); 2] = [
        (0xFFFF_FFFF_FF, 0xDEF, 0xABC),
        (0x12A8_FFFF, 0xDEAD, 0xCFFE),
    ];

    for i in 0..addresses.len() {
        assert_eq!(
            Cache::place_block(addresses[i].0, addresses[i].1, addresses[i].2),
            AddressPartition { tag: parts[i].0, set: parts[i].1, block: parts[i].2 }
        );
    }
}

#[test]
fn decomposition_uses_all_bits_for_set_and_block() {
    let p = Cache::place_block(0xDEAD_BEEF_1234_5678, 40, 24);
    assert_eq!(p, AddressPartition { tag: 0, set: 0xDE_ADBE_EF12, block: 0x34_5678 });
    let q = Cache::place_block(0xDEAD_BEEF_1234_5678, 0, 64);
    assert_eq!(q, AddressPartition { tag: 0, set: 0, block: 0xDEAD_BEEF_1234_5678 });
    let r = Cache::place_block(0xDEAD_BEEF_1234_5678, 0, 0);
    assert_eq!(r, AddressPartition { tag: 0xDEAD_BEEF_1234_5678, set: 0, block: 0 });
}

#[test]
fn decomposition_round_trip() {
    let address: u64 = 0x0123_4567_89AB_CDEF;
    for (s, b) in [(0u8, 0u8), (4, 6), (12, 12), (20, 44), (1, 62)] {
        let p = Cache::place_block(address, s, b);
        let total = s as u32 + b as u32;
        let tag_part = if total == 64 { 0 } else { p.tag << total };
        assert_eq!(tag_part | (p.set << b) | p.block, address);
    }
}

#[test]
fn forced_eviction_without_associativity() {
    let mut cache = Cache::new(0, 1, 0).unwrap();
    assert_eq!(cache.access(0x0), Outcome::Stored);
    assert_eq!(cache.access(0x1), Outcome::Evicted);
    assert_eq!(cache.access(0x0), Outcome::Evicted);
    let stats = cache.statistics();
    assert_eq!((stats.hit, stats.miss, stats.eviction), (0, 3, 2));
}

#[test]
fn lru_keeps_recently_used_line() {
    let mut cache = Cache::new(0, 2, 0).unwrap();
    cache.operate_cache(vec![load(0x0), load(0x1), load(0x0), load(0x2)]);
    let stats = cache.statistics();
    assert_eq!((stats.hit, stats.miss, stats.eviction), (1, 3, 1));
    // 0x1 was evicted, 0x0 and 0x2 remain.
    assert_eq!(cache.access(0x0), Outcome::Hit);
    assert_eq!(cache.access(0x2), Outcome::Hit);
    assert_eq!(cache.access(0x1), Outcome::Evicted);
}

#[test]
fn hit_found_beyond_first_line() {
    let mut cache = Cache::new(0, 4, 0).unwrap();
    cache.operate_cache(vec![load(1), load(2), load(3), load(3), load(2)]);
    let stats = cache.statistics();
    assert_eq!((stats.hit, stats.miss, stats.eviction), (2, 3, 0));
}

#[test]
fn rejects_too_many_address_bits() {
    assert!(matches!(Cache::new(40, 1, 30), Err(ConfigError::TooManyAddressBits)));
    assert!(matches!(Cache::new(40, 0, 30), Err(ConfigError::TooManyAddressBits)));
}

#[test]
fn rejects_zero_lines() {
    assert!(matches!(Cache::new(2, 0, 4), Err(ConfigError::NoLines)));
}

#[test]
fn accepts_full_width_split() {
    let mut cache = Cache::new(0, 1, 64).unwrap();
    assert_eq!(cache.access(0x1234), Outcome::Stored);
    assert_eq!(cache.access(0xFFFF_FFFF_FFFF_FFFF), Outcome::Hit);
}

#[test]
fn sets_are_independent() {
    // Two sets of one line, blocks of 16 bytes: 0x00 and 0x10 fall in different sets.
    let mut cache = Cache::new(1, 1, 4).unwrap();
    cache.operate_cache(vec![load(0x00), load(0x10), load(0x04), load(0x18), load(0x20)]);
    let stats = cache.statistics();
    assert_eq!((stats.hit, stats.miss, stats.eviction), (2, 3, 1));
}

#[test]
fn counts_add_up_to_accesses() {
    let mut cache = Cache::new(1, 2, 2).unwrap();
    let addresses: Vec<u64> = vec![0, 4, 8, 12, 16, 0, 4, 32, 64, 8, 8, 100];
    let n = addresses.len() as u64;
    cache.operate_cache(addresses.into_iter().map(load).collect());
    let stats = cache.statistics();
    assert_eq!(stats.hit + stats.miss, n);
    assert!(stats.eviction <= stats.miss);
}

#[test]
fn no_eviction_while_sets_have_room() {
    let mut cache = Cache::new(1, 2, 0).unwrap();
    // Set 0 sees tags 0 and 1, set 1 sees tags 0 and 1: two distinct tags each.
    cache.operate_cache(vec![load(0), load(1), load(2), load(3), load(0), load(3)]);
    assert_eq!(cache.statistics().eviction, 0);
    // A third distinct tag in set 0 forces the first eviction.
    assert_eq!(cache.access(4), Outcome::Evicted);
}

#[test]
fn replay_is_deterministic() {
    let trace: Vec<u64> = vec![7, 3, 7, 9, 11, 3, 15, 7, 1, 9];
    let run = || {
        let mut cache = Cache::new(1, 2, 1).unwrap();
        cache.operate_cache(trace.iter().copied().map(load).collect());
        cache.statistics()
    };
    assert_eq!(run(), run());
}
