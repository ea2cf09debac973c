use std::collections::HashMap;

use eventfile::{Cache, EventFile, IdxBound};

/// An unbounded map cache, as a stand-in for a real eviction cache.
struct MapCache {
    map: HashMap<(u32, u64), Vec<u8>>,
}

impl Cache for MapCache {
    fn put(&mut self, key: (u32, u64), value: Vec<u8>, _prio: bool) {
        self.map.insert(key, value);
    }

    fn get(&mut self, key: (u32, u64)) -> Option<Vec<u8>> {
        self.map.get(&key).cloned()
    }
}

/// A small deterministic pseudo-random generator for sizes and ranges.
struct Lcg(u64);

impl Lcg {
    fn next(&mut self) -> u64 {
        self.0 = self.0.wrapping_mul(6364136223846793005).wrapping_add(1442695040888963407);
        self.0 >> 16
    }

    fn range(&mut self, lo: u64, hi: u64) -> u64 {
        lo + self.next() % (hi - lo)
    }
}

fn all_get(s: &mut EventFile<MapCache>, a: IdxBound, b: IdxBound) -> Vec<Vec<u8>> {
    let mut out = Vec::new();
    for slice in s.iter(a, b).unwrap() {
        for ev in slice.events() {
            out.push(ev);
        }
    }
    out
}

#[test]
fn smoke() {
    const N: u64 = 130;

    let cache = MapCache { map: HashMap::new() };
    let mut s = EventFile::new(13, Vec::new(), 42, 1000, 64, cache).unwrap();

    let mut rng = Lcg(0x1234);
    let mut all: Vec<Vec<u8>> = Vec::new();
    for i in 0..N {
        let len = rng.range(100, 300) as usize;
        let mut bytes = vec![0u8; len];
        for b in bytes.iter_mut() {
            *b = rng.next() as u8;
        }
        bytes[..8].copy_from_slice(&i.to_be_bytes());
        s.append(&bytes).unwrap();
        all.push(bytes);
    }

    for i in 0..N {
        let evs = all_get(&mut s, IdxBound::Included(i), IdxBound::Included(i));
        assert_eq!(evs.len(), 1, " at i={}", i);
        assert_eq!(evs[0], all[i as usize], " at i={}", i);
    }

    assert_eq!(all_get(&mut s, IdxBound::Unbounded, IdxBound::Unbounded), all);

    for _ in 0..1000 {
        let start = rng.range(0, N + 1);
        let end = start + rng.range(0, 100);
        let startu = start as usize;
        let endu = (end as usize).min(N as usize - 1);
        let expect: Vec<Vec<u8>> = if startu <= endu {
            all[startu..=endu].to_vec()
        } else {
            Vec::new()
        };
        assert_eq!(
            all_get(&mut s, IdxBound::Included(start), IdxBound::Included(end)),
            expect,
            "get {}..={}",
            start,
            end
        );
    }
}
