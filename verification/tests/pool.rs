use rep_grow::config::PoolKey;
use rep_grow::pool::StockfishPool;
use rep_grow::registry::PoolRegistry;
use std::cell::Cell;
use std::rc::Rc;

fn key(path: &str, size: usize) -> PoolKey {
    PoolKey::new(path.to_string(), 10, 2, None, size)
}

#[test]
fn pool_size_is_at_least_one() {
    assert_eq!(key("e", 0).pool_size, 1);
    assert_eq!(key("e", 0).worker_count(), 1);
    assert_eq!(key("e", 1).worker_count(), 1);
    assert_eq!(key("e", 4).worker_count(), 4);
    let raw = PoolKey { engine_path: "e".into(), depth: 1, multi_pv: 1, think_time_ms: None, pool_size: 0 };
    assert_eq!(raw.worker_count(), 1);
}

#[test]
fn keys_are_equal_when_all_their_fields_are() {
    let a = key("engine", 2);
    assert!(a == a.clone());
    assert!(a == key("engine", 2));
    assert!(a != key("engine", 3));
    assert!(a != key("other", 2));
    assert!(a != PoolKey::new("engine".into(), 11, 2, None, 2));
    assert!(a != PoolKey::new("engine".into(), 10, 3, None, 2));
    assert!(a != PoolKey::new("engine".into(), 10, 2, Some(5), 2));
    assert!(key("engine", 0) == key("engine", 1));
}

#[test]
fn requests_go_to_the_workers_in_a_cycle() {
    for n in 1..=5usize {
        let workers: Vec<usize> = (0..n).collect();
        let mut pool = StockfishPool::new(&key("e", n), workers).ok().unwrap();
        assert_eq!(pool.size(), n);
        for k in 0..(3 * n + 1) {
            let index = pool.next_worker();
            assert_eq!(index, k % n);
            assert_eq!(pool.worker(index), Some(&index));
        }
    }
}

#[test]
fn a_pool_takes_exactly_the_workers_its_key_asks_for() {
    assert!(StockfishPool::new(&key("e", 3), vec!['a', 'b', 'c']).is_ok());
    assert_eq!(StockfishPool::new(&key("e", 3), vec!['a', 'b']).err(), Some(vec!['a', 'b']));
    assert_eq!(StockfishPool::<char>::new(&key("e", 0), vec![]).err(), Some(vec![]));
    let pool = StockfishPool::new(&key("e", 0), vec!['a']).ok().unwrap();
    assert_eq!(pool.size(), 1);
    assert!(*pool.key() == key("e", 1));
    assert_eq!(pool.worker(0), Some(&'a'));
    assert_eq!(pool.worker(1), None);
}

#[test]
fn a_failed_worker_leaves_the_others_in_turn() {
    // Dispatch does not look at what became of a worker: the cycle goes on.
    let mut pool = StockfishPool::new(&key("e", 3), vec!["ok", "failed", "ok"]).ok().unwrap();
    let visited: Vec<usize> = (0..6).map(|_| pool.next_worker()).collect();
    assert_eq!(visited, vec![0, 1, 2, 0, 1, 2]);
}

#[test]
fn equal_keys_get_the_same_pool_and_it_is_made_once() {
    let made = Cell::new(0);
    let mut registry: PoolRegistry<Rc<String>> = PoolRegistry::new();
    let make = |name: &str| -> Result<Rc<String>, String> {
        made.set(made.get() + 1);
        Ok(Rc::new(name.to_string()))
    };
    let first = registry.get_or_create(&key("a", 2), || make("first")).unwrap().clone();
    let other = registry.get_or_create(&key("b", 2), || make("other")).unwrap().clone();
    let again = registry.get_or_create(&key("a", 2), || make("again")).unwrap().clone();
    assert_eq!(made.get(), 2);
    assert!(Rc::ptr_eq(&first, &again));
    assert!(!Rc::ptr_eq(&first, &other));
    assert_eq!(*again, "first");
    assert!(Rc::ptr_eq(registry.get(&key("a", 2)).unwrap(), &first));
    assert!(Rc::ptr_eq(registry.get(&key("b", 2)).unwrap(), &other));
    assert!(registry.get(&key("c", 2)).is_none());
}

#[test]
fn a_pool_that_could_not_be_made_is_not_kept() {
    let mut registry: PoolRegistry<u32> = PoolRegistry::new();
    let failed = registry.get_or_create(&key("a", 1), || Err::<u32, &str>("no engine"));
    assert_eq!(failed, Err("no engine"));
    assert!(registry.get(&key("a", 1)).is_none());
    let retried = registry.get_or_create(&key("a", 1), || Ok::<u32, &str>(7));
    assert_eq!(retried, Ok(&7));
    let kept = registry.get_or_create(&key("a", 1), || Err::<u32, &str>("never asked"));
    assert_eq!(kept, Ok(&7));
}

#[test]
fn settling_keeps_the_pool_a_key_already_has() {
    let mut registry: PoolRegistry<u32> = PoolRegistry::new();
    assert_eq!(registry.settle(&key("a", 1), Ok::<u32, ()>(1)), Ok(&1));
    assert_eq!(registry.settle(&key("a", 1), Ok::<u32, ()>(2)), Ok(&1));
    assert_eq!(registry.settle(&key("a", 1), Err::<u32, ()>(())), Ok(&1));
    assert_eq!(registry.settle(&key("b", 1), Err::<u32, ()>(())), Err(()));
    assert_eq!(registry.get(&key("b", 1)), None);
    assert_eq!(registry.settle(&key("b", 1), Ok::<u32, ()>(3)), Ok(&3));
    assert_eq!(registry.get(&key("a", 1)), Some(&1));
}
