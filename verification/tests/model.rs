//! Tests of the engine's protocol pieces and of reader/writer interleavings,
//! run as sequential schedules: each thread's block of the concurrent
//! scenario runs as one slice between the other's operations.

use flashmap::refcount::{RefCount, ReaderStatus};
use flashmap::residual;
use flashmap::{Builder, MapIndex};

#[test]
pub fn only_readers() {
    let (mut map, read) = flashmap::new::<Box<u32>, Box<u32>>();

    assert!(map.write_guard());
    map.insert(Box::new(1), Box::new(3));
    map.insert(Box::new(2), Box::new(8));
    map.insert(Box::new(3), Box::new(13));
    map.publish();

    let read2 = map.new_reader();
    for handle in [&read, &read2] {
        let g = map.guard(handle);
        let result = **map.get(&g, &Box::new(3)).unwrap() - **map.get(&g, &Box::new(1)).unwrap()
            - **map.get(&g, &Box::new(2)).unwrap();
        map.release_guard(g);
        assert_eq!(result, 2);
    }
    map.release_refcount(read2);
}

#[test]
pub fn reader_and_writer() {
    let (mut map, read) = flashmap::new::<Box<u32>, Box<u32>>();

    // reader slice before the write is published
    let g = map.guard(&read);
    let res = map.get(&g, &Box::new(10)).map(|v| **v);
    assert!(matches!(res, Some(20) | None));
    map.release_guard(g);

    // writer slice
    assert!(map.write_guard());
    map.insert(Box::new(10), Box::new(20));
    map.publish();

    // reader slice after
    let g = map.guard(&read);
    assert_eq!(map.get(&g, &Box::new(10)).map(|v| **v).unwrap(), 20);
    map.release_guard(g);
}

#[test]
pub fn many_writes() {
    let (mut map, read) = flashmap::new::<Box<u32>, Box<u32>>();

    assert!(map.write_guard());
    map.insert(Box::new(10), Box::new(20));
    map.publish();

    let x = {
        let g = map.guard(&read);
        let x = map.get(&g, &Box::new(20)).map(|v| **v);
        map.release_guard(g);
        x
    };
    assert!(matches!(x, Some(40) | None));

    assert!(map.write_guard());
    map.insert(Box::new(20), Box::new(40));
    map.publish();

    let y = {
        let g = map.guard(&read);
        let y = map.get(&g, &Box::new(10)).map(|v| **v);
        map.release_guard(g);
        y
    };
    assert!(matches!(y, Some(20) | None));
    assert!(!x.is_some() || y.is_some());
}

#[test]
pub fn many_different_writes() {
    let (mut map, read) = flashmap::new::<Box<u32>, Box<u32>>();

    assert!(map.write_guard());
    map.insert(Box::new(10), Box::new(20));
    map.publish();

    assert!(map.write_guard());
    map.insert(Box::new(20), Box::new(40));
    map.publish();

    let x = {
        let g = map.guard(&read);
        let x = map.get(&g, &Box::new(10)).map(|v| **v);
        map.release_guard(g);
        x
    };
    assert!(matches!(x, Some(20) | None));

    assert!(map.write_guard());
    assert!(map.replace(Box::new(20), |v| Box::new(**v + 5)).is_some());
    map.publish();

    assert!(map.write_guard());
    assert!(map.remove(Box::new(10)).is_some());
    map.publish();

    let y = {
        let g = map.guard(&read);
        let y = map.get(&g, &Box::new(20)).map(|v| **v);
        map.release_guard(g);
        y
    };
    assert!(matches!(y, Some(40) | Some(45) | None));
    assert!(!matches!(y, Some(40) | None) || x.is_some());
}

#[test]
pub fn complex_read_many_writes() {
    let (mut map, read) = flashmap::new::<Box<u32>, Box<u32>>();

    assert!(map.write_guard());
    map.insert(Box::new(10), Box::new(20));
    map.publish();

    let guard1 = map.guard(&read);
    let x = map.get(&guard1, &Box::new(20)).map(|v| **v);
    assert!(matches!(x, Some(40) | None));

    let guard2 = map.guard(&read);
    let y = map.get(&guard2, &Box::new(10)).map(|v| **v);
    assert!(matches!(y, Some(20) | None));
    assert!(!x.is_some() || y.is_some());
    map.release_guard(guard2);

    // the writer publishes while guard1 is still alive
    assert!(map.write_guard());
    map.insert(Box::new(20), Box::new(40));
    map.publish();

    // guard1 keeps observing the snapshot it pinned
    assert!(matches!(map.get(&guard1, &Box::new(20)).map(|v| **v), None));
    map.release_guard(guard1);
}

#[test]
pub fn many_handles() {
    let (mut map, read) = flashmap::new::<Box<u32>, Box<u32>>();

    assert!(map.write_guard());
    map.insert(Box::new(10), Box::new(20));
    map.publish();

    let guard1 = map.guard(&read);
    let read2 = map.new_reader();
    let guard2 = map.guard(&read2);

    let x = map.get(&guard1, &Box::new(20)).map(|v| **v);
    assert!(matches!(x, Some(40) | None));
    map.release_guard(guard1);
    map.release_refcount(read);

    let y = map.get(&guard2, &Box::new(10)).map(|v| **v);
    assert!(matches!(y, Some(20) | None));
    assert!(!x.is_some() || y.is_some());
    map.release_guard(guard2);

    assert!(map.write_guard());
    map.insert(Box::new(20), Box::new(40));
    map.publish();
    map.release_refcount(read2);
}

#[test]
pub fn evicted_and_leaked_values() {
    let (mut map, read) = flashmap::new::<Box<u32>, Box<u32>>();

    assert!(map.write_guard());
    map.insert(Box::new(10), Box::new(20));
    map.insert(Box::new(20), Box::new(40));
    map.insert(Box::new(40), Box::new(80));
    map.publish();

    assert!(map.write_guard());
    let twenty = map.remove(Box::new(10)).unwrap();
    let forty = map.replace(Box::new(20), |v| Box::new(**v + 5)).unwrap();
    let twenty = map.leak(twenty);
    assert_eq!(**map.evicted_value(&forty), 40);
    let eighty = map.insert(Box::new(40), Box::new(90)).unwrap();
    let eighty = map.leak(eighty);
    map.publish();

    let twenty = map.reclaim_one(twenty);
    assert_eq!(*twenty, 20);
    assert_eq!(**map.leaked_value(&eighty), 80);

    assert!(map.write_guard());
    map.drop_lazily(eighty);
    map.publish();

    let g = map.guard(&read);
    let twenty = map.get(&g, &Box::new(10)).map(|v| **v);
    let forty = map.get(&g, &Box::new(20)).map(|v| **v);
    let eighty = map.get(&g, &Box::new(40)).map(|v| **v);
    assert!(twenty.is_some() || (forty == Some(45) && eighty == Some(90)));
    assert!(forty != Some(45) || eighty == Some(90));
    map.release_guard(g);
}

#[test]
pub fn many_reads_many_writes() {
    let (mut map, read) = flashmap::new::<u32, u32>();
    let read2 = map.new_reader();

    assert!(map.write_guard());
    map.insert(10, 20);
    map.publish();

    let g = map.guard(&read2);
    assert!(matches!(map.get(&g, &10).copied(), Some(20) | None));
    map.release_guard(g);

    assert!(map.write_guard());
    map.insert(20, 40);
    map.publish();

    let g = map.guard(&read);
    assert!(matches!(map.get(&g, &20).copied(), Some(40) | None));
    map.release_guard(g);
    map.release_refcount(read2);
}

#[test]
fn basic_insert_visibility() {
    let (mut map, read) = flashmap::new::<Box<i32>, Box<i32>>();
    assert!(map.write_guard());
    map.insert(Box::new(1), Box::new(2));
    map.insert(Box::new(2), Box::new(4));
    map.publish();

    let g = map.guard(&read);
    assert_eq!(**map.get(&g, &Box::new(1)).unwrap(), 2);
    assert_eq!(**map.get(&g, &Box::new(2)).unwrap(), 4);
    assert_eq!(map.len(&g), 2);
    map.release_guard(g);
}

#[test]
fn read_pins_old_snapshot() {
    let (mut map, read) = flashmap::new::<String, String>();
    assert!(map.write_guard());
    map.insert(String::from("ferris"), String::from("crab"));
    map.publish();

    let g1 = map.guard(&read);

    assert!(map.write_guard());
    assert!(map.remove(String::from("ferris")).is_some());
    map.publish();

    // the old guard still observes its snapshot
    assert_eq!(map.get(&g1, &String::from("ferris")).map(|v| v.clone()), Some(String::from("crab")));
    map.release_guard(g1);

    let g2 = map.guard(&read);
    assert!(map.get(&g2, &String::from("ferris")).is_none());
    map.release_guard(g2);
}

#[test]
fn leak_and_reclaim_once() {
    let (mut map, _read) = flashmap::new::<u32, Box<u32>>();
    assert!(map.write_guard());
    map.insert(7, Box::new(11));
    map.publish();

    assert!(map.write_guard());
    let evicted = map.remove(7).unwrap();
    let leaked = map.leak(evicted);
    map.publish();

    let value = map.reclaim_one(leaked);
    assert_eq!(*value, 11);
}

#[test]
fn cross_map_reclaim_is_detected() {
    let (mut a, _ra) = Builder::new().with_uid(1).build::<u32, Box<u32>>();
    let (mut b, _rb) = Builder::new().with_uid(2).build::<u32, Box<u32>>();

    assert!(a.write_guard());
    a.insert(1, Box::new(1));
    let leaked = {
        let evicted = a.remove(1).unwrap();
        a.leak(evicted)
    };
    a.publish();

    // the wrong map refuses the leaked value and hands it back untouched
    let leaked = match b.try_reclaim_one(leaked) {
        Ok(_) => panic!("a leaked value from another map was consumed"),
        Err(l) => l,
    };

    // it remains reclaimable from the right map
    let value = a.reclaim_one(leaked);
    assert_eq!(*value, 1);
}

#[test]
fn writer_parks_roundtrip() {
    let (mut map, read) = flashmap::new::<u32, u32>();
    assert!(map.write_guard());
    map.insert(1, 10);
    map.publish();

    // a reader holds a guard across a publish: it becomes residual
    let g = map.guard(&read);
    assert!(map.write_guard());
    map.insert(2, 20);
    map.publish();

    // the writer cannot reuse the buffer the guard still pins
    assert!(!map.synchronize());
    assert!(!map.write_guard());

    // the reader leaves: it was the residual one, and the writer proceeds
    let status = map.release_guard(g);
    assert_eq!(status, ReaderStatus::Residual);
    assert!(map.synchronize());
    assert!(map.write_guard());
    map.publish();
}

#[test]
fn empty_map_properties() {
    let (mut map, read) = flashmap::new::<u32, u32>();
    let g = map.guard(&read);
    assert_eq!(map.len(&g), 0);
    assert!(map.is_empty(&g));
    assert!(map.iter(&g).is_empty());
    assert!(map.keys(&g).is_empty());
    assert!(map.values(&g).is_empty());
    assert!(map.get(&g, &0).is_none());
    map.release_guard(g);
}

#[test]
fn refcount_word_packing() {
    let mut rc = RefCount::new(MapIndex::Second);
    assert_eq!(rc.increment(), MapIndex::Second);
    assert_eq!(rc.increment(), MapIndex::Second);
    // the writer flips the side and reads the packed count
    assert_eq!(rc.swap_maps(), 2);
    assert_eq!(rc.increment(), MapIndex::First);
    assert_eq!(rc.decrement(), MapIndex::First);
    assert_eq!(rc.decrement(), MapIndex::First);
    assert_eq!(rc.swap_maps(), 1);
    assert_eq!(rc.decrement(), MapIndex::Second);
}

#[test]
fn residual_protocol_wakes_once() {
    // two residual readers; the writer claims the parked state
    let (parked, must_park) = residual::synchronize_claim(2);
    assert!(must_park);
    assert!(parked < 0);

    // the first release does not wake the writer, the second does
    let (after_one, wake1) = residual::release_residual(parked);
    assert!(!wake1);
    let (after_two, wake2) = residual::release_residual(after_one);
    assert!(wake2);
    assert_eq!(after_two, 0);
    assert!(residual::synchronize_done(after_two));

    // with no residual readers the claim is a no-op
    assert_eq!(residual::synchronize_claim(0), (0, false));
}

#[test]
fn snapshots_are_consistent_across_interleaving() {
    // a writer performs insert/remove pairs while readers take guards at
    // arbitrary points; every observed value is one that was inserted for
    // that key at some time
    let (mut map, read) = flashmap::new::<u32, u32>();
    let mut inserted: Vec<(u32, u32)> = Vec::new();
    for round in 0u32..8 {
        assert!(map.write_guard());
        for k in 0..4u32 {
            let v = round * 10 + k;
            map.insert(k, v);
            inserted.push((k, v));
            if (round + k) % 3 == 0 {
                map.remove(k);
            }
        }
        map.publish();

        let g = map.guard(&read);
        for k in 0..4u32 {
            if let Some(v) = map.get(&g, &k) {
                assert!(inserted.contains(&(k, *v)));
            }
        }
        map.release_guard(g);
    }
}

#[test]
fn view_surface() {
    let (mut map, read) = flashmap::with_capacity::<u32, u32>(8);

    let mut writer = flashmap::View::new(flashmap::WriteGuard);
    assert!(map.write_guard());
    assert!(writer.insert(&mut map, 3, 30).is_none());
    assert!(writer.insert(&mut map, 4, 40).is_none());
    assert!(writer.remove(&mut map, 4).is_some());
    assert!(writer.replace(&mut map, 3, |v| v + 3).is_some());
    writer.publish(&mut map);

    let reader = flashmap::View::new(map.guard(&read));
    assert_eq!(reader.len(&map), 1);
    assert!(!reader.is_empty(&map));
    assert!(reader.contains_key(&map, &3));
    assert_eq!(reader.get(&map, &3).copied(), Some(33));
    assert_eq!(reader.iter(&map).len(), 1);
    assert_eq!(reader.keys(&map), vec![&3]);
    assert_eq!(reader.values(&map), vec![&33]);
    map.release_guard(reader.guard);
}

#[test]
fn view_lazy_drop() {
    let (mut map, _read) = flashmap::new::<u32, u32>();
    assert!(map.write_guard());
    map.insert(5, 50);
    map.publish();

    let writer = flashmap::View::new(flashmap::WriteGuard);
    assert!(map.write_guard());
    let evicted = map.remove(5).unwrap();
    let leaked = map.leak(evicted);
    writer.drop_lazily(&mut map, leaked);
    writer.publish(&mut map);
}

#[test]
fn leaked_into_inner_names_slot() {
    let (mut map, _read) = flashmap::new::<u32, u32>();
    assert!(map.write_guard());
    // the first value of the map lives in the first arena slot
    map.insert(5, 50);
    map.publish();
    assert!(map.write_guard());
    let evicted = map.remove(5).unwrap();
    let leaked = map.leak(evicted);
    map.publish();
    assert_eq!(flashmap::Leaked::into_inner(leaked), 0);
}

#[test]
fn builder_default_matches_new() {
    let b = flashmap::Builder::default();
    assert_eq!(b.capacity, 0);
    assert_eq!(b.uid, 0);
    let b = b.with_capacity(16).with_uid(9);
    assert_eq!(b.capacity, 16);
    assert_eq!(b.uid, 9);
}
