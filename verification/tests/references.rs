use phira_model::cache::ObjectMap;
use phira_model::ptr::{obtain_map_cache, PZObject, Ptr, Registry, Resolution, CACHE_CAPACITY};
use std::sync::Arc;

#[derive(Clone, Debug, PartialEq)]
struct Chart {
    id: i32,
    name: String,
}

impl PZObject for Chart {
    const QUERY_PATH: &'static str = "chart";

    fn id(&self) -> i32 {
        self.id
    }
}

fn chart(id: i32) -> Arc<Chart> {
    Arc::new(Chart { id, name: format!("chart {}", id) })
}

#[test]
fn ptr_is_its_identifier() {
    let a: Ptr<Chart> = Ptr::new(7);
    let b: Ptr<Chart> = Ptr::new(7);
    let c: Ptr<Chart> = Ptr::new(8);
    assert!(a == b);
    assert!(a != c);
    assert_eq!(a.id(), 7);
    assert_eq!(a.clone().id(), 7);
    assert!(a.clone() == b);
    let d: Ptr<Chart> = Ptr::from(-3);
    assert_eq!(d.id(), -3);
    assert!(d == Ptr::new(-3));
    assert_eq!(Ptr::<Chart>::new(i32::MIN).id(), i32::MIN);
}

#[test]
fn new_cache_is_empty() {
    let cache: ObjectMap<Chart> = ObjectMap::new(3);
    assert_eq!(cache.len(), 0);
    assert_eq!(cache.cap(), 3);
    assert!(!cache.contains(1));
    assert_eq!(cache.ids(), Vec::<i32>::new());
}

#[test]
fn sixty_five_inserts_evict_the_first() {
    let mut cache: ObjectMap<Chart> = ObjectMap::new(64);
    for id in 0..64 {
        cache.insert(id, chart(id));
        assert_eq!(cache.len(), (id + 1) as usize);
    }
    assert!(cache.contains(0));
    cache.insert(64, chart(64));
    assert_eq!(cache.len(), 64);
    assert!(!cache.contains(0));
    for id in 1..=64 {
        assert!(cache.contains(id));
    }
    let expected: Vec<i32> = (1..=64).rev().collect();
    assert_eq!(cache.ids(), expected);
    for id in 1..=64 {
        assert_eq!(cache.get(id).unwrap().id, id);
    }
    assert!(cache.get(0).is_none());
}

#[test]
fn lookup_counts_as_use() {
    let mut cache: ObjectMap<Chart> = ObjectMap::new(3);
    cache.insert(1, chart(1));
    cache.insert(2, chart(2));
    cache.insert(3, chart(3));
    assert_eq!(cache.ids(), vec![3, 2, 1]);
    assert_eq!(cache.get(1).unwrap().id, 1);
    assert_eq!(cache.ids(), vec![1, 3, 2]);
    cache.insert(4, chart(4));
    assert_eq!(cache.ids(), vec![4, 1, 3]);
    assert!(cache.contains(1));
    assert!(!cache.contains(2));
    assert!(cache.get(2).is_none());
    assert_eq!(cache.ids(), vec![4, 1, 3]);
    assert!(cache.contains(3));
    assert_eq!(cache.ids(), vec![4, 1, 3]);
}

#[test]
fn insert_under_a_cached_identifier_replaces() {
    let mut cache: ObjectMap<Chart> = ObjectMap::new(2);
    let first = chart(1);
    let second = Arc::new(Chart { id: 1, name: "again".to_owned() });
    cache.insert(1, first.clone());
    cache.insert(2, chart(2));
    cache.insert(1, second.clone());
    assert_eq!(cache.len(), 2);
    assert_eq!(cache.ids(), vec![1, 2]);
    let got = cache.get(1).unwrap();
    assert!(Arc::ptr_eq(&got, &second));
    assert!(!Arc::ptr_eq(&got, &first));
    assert_eq!(cache.get(2).unwrap().id, 2);
}

#[test]
fn evicted_slots_are_used_again() {
    let mut cache: ObjectMap<Chart> = ObjectMap::new(2);
    for id in 0..200 {
        cache.insert(id, chart(id));
        assert_eq!(cache.get(id).unwrap().id, id);
        if id > 0 {
            assert_eq!(cache.ids(), vec![id, id - 1]);
            assert!(!cache.contains(id - 2));
        }
        assert!(cache.len() <= 2);
    }
    let mut single: ObjectMap<Chart> = ObjectMap::new(1);
    single.insert(5, chart(5));
    single.insert(6, chart(6));
    assert_eq!(single.ids(), vec![6]);
    assert_eq!(single.get(6).unwrap().id, 6);
}

#[test]
fn registry_makes_the_cache_once() {
    let mut registry: Registry<Chart> = Registry::new();
    {
        let cache = obtain_map_cache(&mut registry);
        assert_eq!(cache.cap(), 64);
        assert_eq!(cache.cap(), CACHE_CAPACITY);
        assert_eq!(cache.len(), 0);
        cache.insert(9, chart(9));
    }
    let cache = obtain_map_cache(&mut registry);
    assert_eq!(cache.len(), 1);
    assert!(cache.contains(9));
}

#[test]
fn load_on_a_cold_cache_asks_for_a_fetch() {
    let mut registry: Registry<Chart> = Registry::new();
    let ptr: Ptr<Chart> = Ptr::new(11);
    match ptr.load(&mut registry) {
        Resolution::Fetch(id) => assert_eq!(id, 11),
        Resolution::Cached(_) => panic!("nothing was cached"),
    }
    assert_eq!(obtain_map_cache(&mut registry).len(), 0);
}

#[test]
fn load_after_population_hits_without_a_fetch() {
    let mut registry: Registry<Chart> = Registry::new();
    let ptr: Ptr<Chart> = Ptr::new(11);
    let mut fetches = 0;
    let fetched = match ptr.load(&mut registry) {
        Resolution::Fetch(id) => {
            fetches += 1;
            chart(id)
        }
        Resolution::Cached(_) => panic!("nothing was cached"),
    };
    obtain_map_cache(&mut registry).insert(fetched.id(), fetched.clone());
    assert!(obtain_map_cache(&mut registry).contains(11));
    for _ in 0..3 {
        match ptr.load(&mut registry) {
            Resolution::Cached(value) => assert!(Arc::ptr_eq(&value, &fetched)),
            Resolution::Fetch(_) => fetches += 1,
        }
    }
    assert_eq!(fetches, 1);
    match Ptr::<Chart>::new(12).load(&mut registry) {
        Resolution::Fetch(id) => assert_eq!(id, 12),
        Resolution::Cached(_) => panic!("12 was never cached"),
    }
}

#[test]
fn load_refreshes_the_entry() {
    let mut registry: Registry<Chart> = Registry::new();
    for id in 0..64 {
        obtain_map_cache(&mut registry).insert(id, chart(id));
    }
    assert!(matches!(Ptr::<Chart>::new(0).load(&mut registry), Resolution::Cached(_)));
    obtain_map_cache(&mut registry).insert(64, chart(64));
    let cache = obtain_map_cache(&mut registry);
    assert!(cache.contains(0));
    assert!(!cache.contains(1));
    assert_eq!(cache.len(), 64);
}
