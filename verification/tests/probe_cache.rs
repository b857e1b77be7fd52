use game_arena::probe_cache::ProbeCache;

fn home(key: u64) -> u64 {
    key.wrapping_mul(0x9e37_79b9_7f4a_7c15) & 16383
}

#[test]
fn stores_and_finds_values() {
    let mut c: ProbeCache<i32> = ProbeCache::new();
    assert_eq!(c.len(), 0);
    assert_eq!(c.get(42), None);
    c.insert(42, 7);
    c.insert(99, -3);
    assert_eq!(c.get(42), Some(7));
    assert_eq!(c.get(99), Some(-3));
    assert_eq!(c.get(100), None);
    assert_eq!(c.len(), 2);
    // a second insert of a key replaces its value and keeps the count
    c.insert(42, 8);
    assert_eq!(c.get(42), Some(8));
    assert_eq!(c.len(), 2);
}

#[test]
fn colliding_keys_probe_on_and_a_full_probe_drops_the_insert() {
    let target = home(1);
    let keys: Vec<u64> = (1u64..).filter(|&k| home(k) == target).take(65).collect();
    let mut c: ProbeCache<u64> = ProbeCache::new();
    for (i, &k) in keys.iter().take(64).enumerate() {
        c.insert(k, i as u64);
    }
    assert_eq!(c.len(), 64);
    for (i, &k) in keys.iter().take(64).enumerate() {
        assert_eq!(c.get(k), Some(i as u64));
    }
    // all 64 slots of the probe are taken by other keys
    c.insert(keys[64], 1000);
    assert_eq!(c.get(keys[64]), None);
    assert_eq!(c.len(), 64);
}
