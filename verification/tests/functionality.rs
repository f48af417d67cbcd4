//! Tests of the map operations: insert, replace, remove, lookups and
//! iteration, each through full write sessions and fresh read guards.

#[test]
pub fn insert() {
    let (mut map, read) = flashmap::new::<Box<u32>, Box<u32>>();
    let g = map.guard(&read);
    assert_eq!(map.len(&g), 0);
    map.release_guard(g);

    assert!(map.write_guard());
    assert!(map.insert(Box::new(1), Box::new(2)).is_none());
    map.publish();
    let g = map.guard(&read);
    assert_eq!(map.len(&g), 1);
    map.release_guard(g);

    assert!(map.write_guard());
    assert!(map.insert(Box::new(2), Box::new(4)).is_none());
    map.publish();
    let g = map.guard(&read);
    assert_eq!(map.len(&g), 2);
    assert_eq!(**map.get(&g, &Box::new(1)).unwrap(), 2);
    map.release_guard(g);

    assert!(map.write_guard());
    assert_eq!(**map.write_get(&Box::new(2)).unwrap(), 4);
    let evicted = map.insert(Box::new(1), Box::new(3)).unwrap();
    assert_eq!(**map.evicted_value(&evicted), 2);
    assert_eq!(**map.write_get(&Box::new(1)).unwrap(), 3);
    map.publish();

    let g = map.guard(&read);
    assert_eq!(map.len(&g), 2);
    assert_eq!(**map.get(&g, &Box::new(1)).unwrap(), 3);
    map.release_guard(g);
}

#[test]
fn test_empty_remove() {
    let (mut map, _read) = flashmap::new::<u32, u32>();
    assert!(map.write_guard());
    assert!(map.remove(0).is_none());
    map.publish();
}

#[test]
fn test_empty_iter() {
    let (mut map, read) = flashmap::new::<u32, u32>();
    let g = map.guard(&read);
    assert!(map.iter(&g).is_empty());
    assert!(map.keys(&g).is_empty());
    assert!(map.values(&g).is_empty());
    assert!(map.is_empty(&g));
    map.release_guard(g);
}

#[test]
fn test_lots_of_insertions() {
    let (mut map, read) = flashmap::new::<Box<i32>, Box<i32>>();

    const MIN: i32 = 0;
    const MID: i32 = 10;
    const MAX: i32 = 20;

    // Repeat the whole cycle so that arena slots and buffers are reused
    // across many sessions.
    for _ in 0..10 {
        let g = map.guard(&read);
        assert!(map.is_empty(&g));
        map.release_guard(g);

        for i in MIN..MID {
            assert!(map.write_guard());
            assert!(map.insert(Box::new(i), Box::new(i)).is_none());
            map.publish();

            for j in MIN..=i {
                let g = map.guard(&read);
                let got = map.get(&g, &Box::new(j)).map(|v| **v);
                assert_eq!(got, Some(j));
                map.release_guard(g);
            }

            for j in i + 1..MID {
                let g = map.guard(&read);
                assert_eq!(map.get(&g, &Box::new(j)).map(|v| **v), None);
                map.release_guard(g);
            }
        }

        for i in MID..MAX {
            let g = map.guard(&read);
            assert!(!map.contains_key(&g, &Box::new(i)));
            map.release_guard(g);
        }

        // remove forwards
        for i in MIN..MID {
            assert!(map.write_guard());
            assert!(map.remove(Box::new(i)).is_some());
            map.publish();

            for j in MIN..=i {
                let g = map.guard(&read);
                assert!(!map.contains_key(&g, &Box::new(j)));
                map.release_guard(g);
            }

            for j in i + 1..MID {
                let g = map.guard(&read);
                assert!(map.contains_key(&g, &Box::new(j)));
                map.release_guard(g);
            }
        }

        for i in MIN..MID {
            let g = map.guard(&read);
            assert!(!map.contains_key(&g, &Box::new(i)));
            map.release_guard(g);
        }

        for i in MIN..MID {
            assert!(map.write_guard());
            assert!(map.insert(Box::new(i), Box::new(i)).is_none());
            map.publish();
        }

        // remove backwards
        for i in (MIN..MID).rev() {
            assert!(map.write_guard());
            assert!(map.remove(Box::new(i)).is_some());
            map.publish();

            for j in i..MID {
                let g = map.guard(&read);
                assert!(!map.contains_key(&g, &Box::new(j)));
                map.release_guard(g);
            }

            for j in MIN..i {
                let g = map.guard(&read);
                assert!(map.contains_key(&g, &Box::new(j)));
                map.release_guard(g);
            }
        }
    }
}

#[test]
fn test_replace() {
    let (mut map, read) = flashmap::new::<Box<i32>, Box<i32>>();
    assert!(map.write_guard());
    assert!(map.insert(Box::new(1), Box::new(12)).is_none());
    assert!(map.insert(Box::new(2), Box::new(8)).is_none());
    assert!(map.insert(Box::new(5), Box::new(14)).is_none());
    map.publish();

    let new = 100;
    assert!(map.write_guard());
    assert!(map.replace(Box::new(5), |_| Box::new(new)).is_some());
    map.publish();

    let g = map.guard(&read);
    assert_eq!(map.get(&g, &Box::new(5)).map(|v| **v), Some(new));
    map.release_guard(g);
}

#[test]
fn test_insert_overwrite() {
    let (mut map, read) = flashmap::new::<Box<i32>, Box<i32>>();
    assert!(map.write_guard());
    assert!(map.insert(Box::new(1), Box::new(2)).is_none());
    map.publish();

    let g = map.guard(&read);
    assert_eq!(**map.get(&g, &Box::new(1)).unwrap(), 2);
    map.release_guard(g);

    assert!(map.write_guard());
    assert!(map.insert(Box::new(1), Box::new(3)).is_some());
    map.publish();

    let g = map.guard(&read);
    assert_eq!(**map.get(&g, &Box::new(1)).unwrap(), 3);
    map.release_guard(g);
}

#[test]
fn test_insert_conflicts() {
    let (mut map, read) = flashmap::new::<Box<i32>, Box<i32>>();
    assert!(map.write_guard());
    assert!(map.insert(Box::new(1), Box::new(2)).is_none());
    assert!(map.insert(Box::new(5), Box::new(3)).is_none());
    assert!(map.insert(Box::new(9), Box::new(4)).is_none());
    map.publish();

    let g = map.guard(&read);
    assert_eq!(**map.get(&g, &Box::new(9)).unwrap(), 4);
    assert_eq!(**map.get(&g, &Box::new(5)).unwrap(), 3);
    assert_eq!(**map.get(&g, &Box::new(1)).unwrap(), 2);
    map.release_guard(g);
}

#[test]
fn test_conflict_remove() {
    let (mut map, read) = flashmap::new::<Box<i32>, Box<i32>>();
    assert!(map.write_guard());
    assert!(map.insert(Box::new(1), Box::new(2)).is_none());
    map.publish();
    let g = map.guard(&read);
    assert_eq!(**map.get(&g, &Box::new(1)).unwrap(), 2);
    map.release_guard(g);

    assert!(map.write_guard());
    assert!(map.insert(Box::new(5), Box::new(3)).is_none());
    map.publish();
    let g = map.guard(&read);
    assert_eq!(**map.get(&g, &Box::new(1)).unwrap(), 2);
    assert_eq!(**map.get(&g, &Box::new(5)).unwrap(), 3);
    map.release_guard(g);

    assert!(map.write_guard());
    assert!(map.insert(Box::new(9), Box::new(4)).is_none());
    map.publish();
    let g = map.guard(&read);
    assert_eq!(**map.get(&g, &Box::new(1)).unwrap(), 2);
    assert_eq!(**map.get(&g, &Box::new(5)).unwrap(), 3);
    assert_eq!(**map.get(&g, &Box::new(9)).unwrap(), 4);
    map.release_guard(g);

    assert!(map.write_guard());
    assert!(map.remove(Box::new(1)).is_some());
    map.publish();
    let g = map.guard(&read);
    assert_eq!(**map.get(&g, &Box::new(9)).unwrap(), 4);
    assert_eq!(**map.get(&g, &Box::new(5)).unwrap(), 3);
    map.release_guard(g);
}

#[test]
fn test_is_empty() {
    let (mut map, read) = flashmap::new::<Box<i32>, Box<i32>>();
    assert!(map.write_guard());
    assert!(map.insert(Box::new(1), Box::new(2)).is_none());
    map.publish();

    let g = map.guard(&read);
    assert!(!map.is_empty(&g));
    map.release_guard(g);

    assert!(map.write_guard());
    assert!(map.remove(Box::new(1)).is_some());
    let writer_empty = map.write_is_empty();
    map.publish();
    let g = map.guard(&read);
    assert!(writer_empty && map.is_empty(&g));
    map.release_guard(g);
}

#[test]
fn test_remove() {
    let (mut map, _read) = flashmap::new::<Box<i32>, Box<i32>>();
    assert!(map.write_guard());
    map.insert(Box::new(1), Box::new(2));
    map.publish();

    assert!(map.write_guard());
    let evicted = map.remove(Box::new(1)).unwrap();
    assert_eq!(**map.evicted_value(&evicted), 2);
    map.publish();

    assert!(map.write_guard());
    assert!(map.remove(Box::new(1)).is_none());
    map.publish();
}

#[test]
fn test_iterate() {
    let (mut map, read) = flashmap::new::<Box<i32>, Box<i32>>();
    assert!(map.write_guard());
    for i in 0..32 {
        assert!(map.insert(Box::new(i), Box::new(i * 2)).is_none());
    }
    map.publish();

    let g = map.guard(&read);
    assert_eq!(map.len(&g), 32);

    let mut observed: u32 = 0;
    for (k, v) in map.iter(&g) {
        assert_eq!(**v, **k * 2);
        observed |= 1 << **k;
    }
    assert_eq!(observed, 0xFFFF_FFFF);
    map.release_guard(g);
}

#[test]
fn test_keys() {
    let (mut map, read) = flashmap::new::<Box<i32>, Box<char>>();
    assert!(map.write_guard());
    map.insert(Box::new(1), Box::new('a'));
    map.insert(Box::new(2), Box::new('b'));
    map.insert(Box::new(3), Box::new('c'));
    map.publish();

    let g = map.guard(&read);
    let keys: Vec<i32> = map.keys(&g).into_iter().map(|k| **k).collect();
    assert_eq!(keys.len(), 3);
    assert!(keys.contains(&1));
    assert!(keys.contains(&2));
    assert!(keys.contains(&3));
    map.release_guard(g);
}

#[test]
fn test_values() {
    let (mut map, read) = flashmap::new::<Box<i32>, Box<char>>();
    assert!(map.write_guard());
    map.insert(Box::new(1), Box::new('a'));
    map.insert(Box::new(2), Box::new('b'));
    map.insert(Box::new(3), Box::new('c'));
    map.publish();

    let g = map.guard(&read);
    let values: Vec<char> = map.values(&g).into_iter().map(|v| **v).collect();
    assert_eq!(values.len(), 3);
    assert!(values.contains(&'a'));
    assert!(values.contains(&'b'));
    assert!(values.contains(&'c'));
    map.release_guard(g);
}

#[test]
fn complex_oplog() {
    let (mut map, read) = flashmap::new::<Box<i32>, Box<i32>>();

    assert!(map.write_guard());
    map.insert(Box::new(10), Box::new(20));
    map.insert(Box::new(20), Box::new(40));
    map.insert(Box::new(40), Box::new(80));
    map.insert(Box::new(10), Box::new(10));
    map.replace(Box::new(20), |_| Box::new(20));
    map.remove(Box::new(20));
    map.remove(Box::new(40));
    map.insert(Box::new(40), Box::new(100));
    map.publish();

    let g = map.guard(&read);
    assert_eq!(**map.get(&g, &Box::new(10)).unwrap(), 10);
    assert!(map.get(&g, &Box::new(20)).is_none());
    assert_eq!(**map.get(&g, &Box::new(40)).unwrap(), 100);
    map.release_guard(g);
}

#[test]
pub fn nested_readers() {
    let (mut map, read) = flashmap::new::<Box<u32>, Box<u32>>();

    assert!(map.write_guard());
    map.insert(Box::new(10), Box::new(20));
    map.publish();
    assert!(map.write_guard());
    map.insert(Box::new(20), Box::new(40));
    map.publish();

    let outer = map.guard(&read);
    let forty = map.get(&outer, &Box::new(20)).map(|v| **v);
    let middle = map.guard(&read);
    assert!(matches!(forty, Some(40) | None));
    let inner = map.guard(&read);
    let twenty = map.get(&middle, &Box::new(10)).map(|v| **v);
    assert!(matches!(forty, Some(40) | None));
    map.release_guard(outer);
    assert!(matches!(twenty, Some(20) | None));
    assert_eq!(map.get(&inner, &Box::new(10)).map(|v| **v), twenty);
    map.release_guard(inner);
    assert!(matches!(twenty, Some(20) | None));
    map.release_guard(middle);
}

#[test]
pub fn reclamation() {
    let (mut map, read) = flashmap::new::<Box<u32>, Box<u32>>();

    assert!(map.write_guard());
    map.insert(Box::new(10), Box::new(20));
    map.insert(Box::new(20), Box::new(40));
    map.insert(Box::new(40), Box::new(80));
    map.publish();

    assert!(map.write_guard());
    let twenty = map.remove(Box::new(10)).unwrap();
    let forty = map.replace(Box::new(20), |_| Box::new(50)).unwrap();

    let leaked_twenty = map.leak(twenty);
    let leaked_forty = map.leak(forty);

    let eighty = map.insert(Box::new(40), Box::new(90)).unwrap();
    let leaked_eighty = map.leak(eighty);
    map.publish();

    let twenty = map.reclaim_one(leaked_twenty);
    let forty = map.reclaim_one(leaked_forty);

    assert_eq!(*twenty * 2, *forty);
    assert_eq!(**map.leaked_value(&leaked_eighty), 80);

    assert!(map.write_guard());
    map.drop_lazily(leaked_eighty);
    map.publish();

    let g = map.guard(&read);
    assert!(map.get(&g, &Box::new(10)).is_none());
    assert_eq!(**map.get(&g, &Box::new(20)).unwrap(), 50);
    assert_eq!(**map.get(&g, &Box::new(40)).unwrap(), 90);
    map.release_guard(g);
    map.release_refcount(read);
}
