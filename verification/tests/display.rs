use cicada_server::display::{
    clear_frame, is_zero, Cached, DisplayMesh, PickTable, SolidCache, TessellationKey,
    SOLID_CACHE_BUDGET,
};
use cicada_server::frames::{decode, Frame, FrameKind, Header, ValueHash};
use std::sync::Arc;

/// A synthetic display mesh the tests can key and size without the
/// kernel: a tetrahedron (4 vertices × 24 B + 4 triangles × 12 B = 144 B
/// as the cache counts it) with `faces` set to `tag` so entries are
/// distinguishable.
fn synthetic(tag: usize) -> Cached {
    let positions: Vec<u64> = [
        0.0f64, 0.0, 0.0, //
        1.0, 0.0, 0.0, //
        0.0, 1.0, 0.0, //
        0.0, 0.0, 1.0,
    ]
    .iter()
    .map(|v| v.to_bits())
    .collect();
    let mesh = DisplayMesh::new(
        ValueHash::from_bytes([tag as u8; 32]),
        positions,
        vec![0, 2, 1, 0, 1, 3, 0, 3, 2, 1, 2, 3],
        tag,
        true,
        0.02f64.to_bits(),
        0.1f64.to_bits(),
    );
    assert_eq!(cicada_server::display::mesh_bytes(&mesh), 144);
    Cached::Mesh(Arc::new(mesh))
}

/// A second synthetic size: an octahedron (6 vertices × 24 B + 8
/// triangles × 12 B = 240 B).
fn synthetic_octahedron() -> Cached {
    let positions: Vec<u64> = [
        1.0f64, 0.0, 0.0, //
        -1.0, 0.0, 0.0, //
        0.0, 1.0, 0.0, //
        0.0, -1.0, 0.0, //
        0.0, 0.0, 1.0, //
        0.0, 0.0, -1.0,
    ]
    .iter()
    .map(|v| v.to_bits())
    .collect();
    let mesh = DisplayMesh::new(
        ValueHash::from_bytes([200; 32]),
        positions,
        vec![
            0, 2, 4, 2, 1, 4, 1, 3, 4, 3, 0, 4, //
            2, 0, 5, 1, 2, 5, 3, 1, 5, 0, 3, 5,
        ],
        8,
        true,
        0.02f64.to_bits(),
        0.1f64.to_bits(),
    );
    assert_eq!(cicada_server::display::mesh_bytes(&mesh), 240);
    Cached::Mesh(Arc::new(mesh))
}

fn faces_of(cached: &Cached) -> usize {
    match cached {
        Cached::Mesh(mesh) => mesh.faces(),
        Cached::Refused(reason) => panic!("a refusal: {reason}"),
    }
}

fn synthetic_key(tag: u64) -> TessellationKey {
    let mut bytes = [0u8; 32];
    bytes[..8].copy_from_slice(&tag.to_le_bytes());
    TessellationKey::new(
        ValueHash::from_bytes(bytes),
        0.02f64.to_bits(),
        0.1f64.to_bits(),
    )
}

#[test]
fn recency_order_holds_at_scale() {
    // 2,000 entries in, every even one re-touched, then enough new entries
    // to evict half — exactly the untouched (odd) ones go, in insertion
    // order, and every even one still hits.
    const N: u64 = 2_000;
    let mut cache = SolidCache::new(usize::try_from(N).unwrap() * 144);
    for tag in 0..N {
        cache.insert(synthetic_key(tag), synthetic(usize::try_from(tag).unwrap()));
    }
    assert_eq!(cache.stats().entries, usize::try_from(N).unwrap());
    assert_eq!(cache.stats().bytes, usize::try_from(N).unwrap() * 144);
    for tag in (0..N).step_by(2) {
        let found = cache.lookup(synthetic_key(tag)).expect("present");
        assert_eq!(faces_of(&found), usize::try_from(tag).unwrap());
    }
    // N/2 new entries: the budget is full, so N/2 evictions, the least
    // recently used first — the odd tags, never an even one.
    for tag in N..N + N / 2 {
        cache.insert(synthetic_key(tag), synthetic(usize::try_from(tag).unwrap()));
    }
    let stats = cache.stats();
    assert_eq!(stats.entries, usize::try_from(N).unwrap());
    assert_eq!(stats.bytes, stats.budget, "exactly full, never over");
    assert_eq!(stats.evictions, N / 2);
    for tag in 0..N {
        let present = cache.lookup(synthetic_key(tag)).is_some();
        assert_eq!(
            present,
            tag % 2 == 0,
            "tag {tag}: touched entries survive, untouched ones were evicted"
        );
    }
    for tag in N..N + N / 2 {
        assert!(cache.lookup(synthetic_key(tag)).is_some());
    }
    // The next eviction round takes the oldest SURVIVORS in touch order:
    // the even tags were touched in ascending order, so tag 0 goes first.
    cache.insert(synthetic_key(N * 3), synthetic(3));
    assert!(
        cache.lookup(synthetic_key(0)).is_none(),
        "tag 0 was the LRU"
    );
    assert!(cache.lookup(synthetic_key(2)).is_some());
}

#[test]
fn an_entry_larger_than_the_budget_is_served_but_never_kept() {
    // Budget 200 B: the 144 B tetrahedron fits; the 240 B octahedron never
    // can — counted (`oversized`), not kept, and the tetrahedron survives.
    let mut cache = SolidCache::new(200);
    cache.insert(synthetic_key(1), synthetic(1));
    assert_eq!(cache.stats().entries, 1);
    cache.insert(synthetic_key(2), synthetic_octahedron());
    let stats = cache.stats();
    assert_eq!(stats.entries, 1, "the oversized entry was not kept");
    assert_eq!(stats.bytes, 144);
    assert_eq!(stats.oversized, 1);
    assert_eq!(stats.evictions, 0, "nothing was thrown out to make room");
    assert!(stats.bytes <= stats.budget);
    assert!(cache.lookup(synthetic_key(1)).is_some());
    assert!(cache.lookup(synthetic_key(2)).is_none());
    // Exactly the budget fits.
    let mut exact = SolidCache::new(240);
    exact.insert(synthetic_key(2), synthetic_octahedron());
    assert_eq!(exact.stats().entries, 1);
    assert_eq!(exact.stats().oversized, 0);
    // A refusal evicts and is evicted like a mesh: 144 + 10 > 150.
    let mut mixed = SolidCache::new(150);
    mixed.insert(synthetic_key(1), synthetic(1));
    mixed.insert(synthetic_key(2), Cached::Refused("0123456789".to_string()));
    let stats = mixed.stats();
    assert_eq!((stats.entries, stats.refusals, stats.evictions), (1, 1, 1));
    assert_eq!(stats.bytes, 10);
    mixed.insert(synthetic_key(3), synthetic(3));
    let stats = mixed.stats();
    assert_eq!((stats.entries, stats.refusals, stats.evictions), (1, 0, 2));
}

#[test]
fn the_cache_resizes_live_and_counts_watched_evictions() {
    let mut cache = SolidCache::new(700);
    for tag in 1_usize..=3 {
        cache.insert(synthetic_key(tag as u64), synthetic(tag));
    }
    assert_eq!((cache.stats().entries, cache.stats().bytes), (3, 432));
    assert_eq!(cache.budget(), 700);
    // Watch 1 and 2 — "the previous picture": touched, so tag 3 — the
    // newest insert, but unwatched — is now the least recently used.
    cache.watch(&[synthetic_key(1), synthetic_key(2)]);
    assert_eq!(cache.watched_evictions(), 0);
    // Shrink to 300: 432 > 300 → the unwatched tag 3 goes; 288 fits.
    assert_eq!(cache.set_budget(300), 1);
    let stats = cache.stats();
    assert_eq!((stats.entries, stats.bytes, stats.budget), (2, 288, 300));
    assert_eq!(stats.evictions, 1);
    assert_eq!(cache.watched_evictions(), 0);
    assert!(!cache.contains(synthetic_key(3)));
    assert!(cache.contains(synthetic_key(1)));
    assert!(cache.contains(synthetic_key(2)));
    // Shrink to 100: both remaining go — both watched.
    assert_eq!(cache.set_budget(100), 2);
    assert_eq!(cache.stats().bytes, 0);
    assert_eq!(cache.watched_evictions(), 2);
    // A fresh watch resets the count; growing evicts nothing; an entry
    // larger than the new budget is oversized.
    cache.watch(&[]);
    assert_eq!(cache.watched_evictions(), 0);
    assert_eq!(cache.set_budget(1000), 0);
    assert_eq!(cache.stats().budget, 1000);
    cache.insert(synthetic_key(4), synthetic(4));
    assert!(cache.contains(synthetic_key(4)));
    assert_eq!(cache.set_budget(100), 1);
    cache.insert(synthetic_key(5), synthetic(5));
    assert_eq!(cache.stats().oversized, 1, "144 B never fits 100 B");
    // An insert's own eviction takes the unwatched entry first.
    let mut lru = SolidCache::new(300);
    lru.insert(synthetic_key(1), synthetic(1));
    lru.insert(synthetic_key(2), synthetic(2));
    lru.watch(&[synthetic_key(1)]);
    lru.insert(synthetic_key(3), synthetic(3));
    assert_eq!((lru.stats().evictions, lru.watched_evictions()), (1, 0));
    assert!(
        lru.contains(synthetic_key(1)),
        "the picture outlives the garbage"
    );
    assert!(!lru.contains(synthetic_key(2)));
    lru.insert(synthetic_key(4), synthetic(4));
    assert_eq!((lru.stats().evictions, lru.watched_evictions()), (2, 1));
    assert!(
        !lru.contains(synthetic_key(1)),
        "now the picture itself had to go"
    );
    // Watching a key the cache does not hold touches nothing and counts
    // nothing; re-watching resets the count.
    lru.watch(&[synthetic_key(99), synthetic_key(4)]);
    assert_eq!(lru.watched_evictions(), 0);
    assert_eq!(lru.stats().entries, 2);
}

#[test]
fn an_inserted_entry_is_found_by_the_next_lookup() {
    let mut cache = SolidCache::new(1000);
    cache.insert(synthetic_key(7), synthetic(7));
    let found = cache.lookup(synthetic_key(7)).expect("kept");
    assert_eq!(faces_of(&found), 7);
    // A second insert under the same key keeps the first entry.
    cache.insert(synthetic_key(7), synthetic(8));
    assert_eq!(faces_of(&cache.lookup(synthetic_key(7)).unwrap()), 7);
    assert_eq!(cache.stats().entries, 1);
}

#[test]
fn hits_and_misses_are_counted_where_they_happen() {
    let mut cache = SolidCache::default();
    assert_eq!(cache.budget(), SOLID_CACHE_BUDGET);
    let key = synthetic_key(1);
    assert!(cache.tessellation_cached(key).is_none());
    assert_eq!((cache.stats().hits, cache.stats().misses), (0, 0));
    let Cached::Mesh(mesh) = synthetic(1) else {
        unreachable!()
    };
    let mesh = Arc::try_unwrap(mesh).unwrap();
    let served = cache.tessellation_computed(key, Ok(mesh)).unwrap();
    assert_eq!(served.faces(), 1);
    assert_eq!((cache.stats().hits, cache.stats().misses), (0, 1));
    let again = cache.tessellation_cached(key).unwrap().unwrap();
    assert_eq!(again.faces(), 1);
    assert_eq!((cache.stats().hits, cache.stats().misses), (1, 1));
    // A refusal is cached and served as the same reason.
    let refused = synthetic_key(2);
    let reason = cache
        .tessellation_computed(refused, Err("bytes the kernel refuses".to_string()))
        .unwrap_err();
    assert_eq!(reason, "bytes the kernel refuses");
    assert_eq!(
        cache.tessellation_cached(refused).unwrap().unwrap_err(),
        "bytes the kernel refuses"
    );
    assert_eq!(cache.stats().refusals, 1);
    assert_eq!(cache.stats().hits, 2);
}

#[test]
fn a_summary_prefers_the_fine_tier_and_never_computes() {
    let mut cache = SolidCache::new(10_000);
    let fine = synthetic_key(10);
    let preview = synthetic_key(11);
    assert!(cache.tessellation_for_summary(fine, preview).is_none());
    cache.insert(preview, synthetic(11));
    let found = cache.tessellation_for_summary(fine, preview).unwrap().unwrap();
    assert_eq!(found.faces(), 11);
    cache.insert(fine, synthetic(10));
    let found = cache.tessellation_for_summary(fine, preview).unwrap().unwrap();
    assert_eq!(found.faces(), 10);
    assert_eq!(cache.stats().misses, 0);
    assert_eq!(cache.stats().hits, 2);
}

#[test]
fn pick_ids_start_at_one_and_resolve_back() {
    let mut table = PickTable::new();
    assert!(table.is_empty());
    let a = table.id_for(1, 0, 5);
    let b = table.id_for(1, 0, 6);
    assert_eq!((a, b), (1, 2));
    assert_eq!(table.id_for(1, 0, 5), 1, "stable on second sight");
    assert_eq!(table.len(), 2);
    assert_eq!(table.resolve(a), Some((1, 0, 5)));
    assert_eq!(table.resolve(b), Some((1, 0, 6)));
    assert_eq!(table.resolve(0), None, "0 means nothing");
    assert_eq!(table.resolve(3), None);
}

#[test]
fn ids_for_asks_once_per_output_and_keeps_old_ids() {
    let mut table = PickTable::default();
    let first = table.ids_for(2, 1, &[0, 1, 2]);
    assert_eq!(first, vec![1, 2, 3]);
    assert_eq!(table.encodes(), 1);
    let second = table.ids_for(2, 1, &[2, 3, 3]);
    assert_eq!(second, vec![3, 4, 4]);
    assert_eq!(table.encodes(), 2);
    assert_eq!(table.len(), 4);
    for id in 1..=4 {
        let (node, output, element) = table.resolve(id).unwrap();
        assert_eq!((node, output), (2, 1));
        assert_eq!(table.id_for(node, output, element), id);
    }
}

#[test]
fn a_clear_frame_decodes_to_its_output() {
    let bytes = clear_frame(9, 4, 2);
    assert_eq!(
        decode(&bytes).unwrap(),
        Frame::Clear {
            header: Header {
                kind: FrameKind::Clear,
                generation: 9,
                node: 4,
                output: 2,
                element_start: 0,
                element_count: 0,
            }
        }
    );
    assert!(is_zero(&0));
    assert!(!is_zero(&3));
}

/// A unit cube as the kernel would mesh it: 8 vertices and 12 triangles,
/// 336 B as the cache counts them.
fn cube(linear: f64) -> DisplayMesh {
    let mut positions: Vec<u64> = Vec::new();
    for corner in 0..8u32 {
        for axis in 0..3u32 {
            let bit = (corner >> axis) & 1;
            positions.push(f64::from(bit).to_bits());
        }
    }
    let indices = vec![
        0, 2, 1, 1, 2, 3, 4, 5, 6, 5, 7, 6, 0, 1, 4, 1, 5, 4, //
        2, 6, 3, 3, 6, 7, 0, 4, 2, 2, 4, 6, 1, 3, 5, 3, 7, 5,
    ];
    DisplayMesh::new(
        ValueHash::from_bytes([7; 32]),
        positions,
        indices,
        6,
        true,
        linear.to_bits(),
        0.1f64.to_bits(),
    )
}

/// One tessellation through the cache: a hit when held, otherwise the
/// kernel's mesh (here a cube at that deflection) counted as a miss.
fn tessellation(cache: &mut SolidCache, linear: f64) -> Arc<DisplayMesh> {
    let key = TessellationKey::new(
        ValueHash::from_bytes([7; 32]),
        linear.to_bits(),
        0.1f64.to_bits(),
    );
    match cache.tessellation_cached(key) {
        Some(found) => found.expect("a mesh"),
        None => cache.tessellation_computed(key, Ok(cube(linear))).expect("a mesh"),
    }
}

#[test]
fn the_cache_evicts_least_recently_used_within_its_budget() {
    assert_eq!(cicada_server::display::mesh_bytes(&cube(0.02)), 336);
    let mut cache = SolidCache::new(700);
    let deflection = 0.02f64;
    let coarser = deflection * 2.0;
    let finer = deflection / 2.0;
    // Three distinct keys (one value, three deflections) at 336 B each
    // against a 700 B budget: the third insert evicts the oldest.
    tessellation(&mut cache, deflection);
    tessellation(&mut cache, coarser);
    assert_eq!(cache.stats().entries, 2);
    // Touch the first so the SECOND is the least recently used.
    tessellation(&mut cache, deflection);
    tessellation(&mut cache, finer);
    let stats = cache.stats();
    assert_eq!(stats.entries, 2);
    assert_eq!(stats.evictions, 1);
    assert_eq!(stats.bytes, 2 * 336);
    assert_eq!(stats.budget, 700);
    // The first key survived (hit), the second was evicted (miss).
    let before = cache.stats();
    tessellation(&mut cache, deflection);
    assert_eq!(cache.stats().hits, before.hits + 1);
    tessellation(&mut cache, coarser);
    assert_eq!(cache.stats().misses, before.misses + 1);
}
