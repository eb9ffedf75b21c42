use minisql::manager::pool::{Pool, PoolError};
use std::sync::Arc;

/// A request as a caller runs it: look the session up, and if it is not
/// resident load one, write the least recently used back if the pool is
/// full, and hand the new session in. `persist` stands for writing back.
fn request(
    pool: &mut Pool<String>,
    user: &str,
    persist: &mut dyn FnMut(&str) -> bool,
) -> Result<Arc<String>, PoolError> {
    if let Some(session) = pool.get(user) {
        return Ok(session);
    }
    let flushed = match pool.eviction_candidate() {
        Some((lru, _)) => persist(&lru),
        None => true,
    };
    pool.insert(user.to_string(), format!("session of {}", user), flushed)?;
    Ok(pool.get(user).unwrap())
}

fn names(pool: &Pool<String>) -> Vec<String> {
    pool.recency()
}

#[test]
fn new_pool_is_empty() {
    let pool: Pool<String> = Pool::new(4).unwrap();
    assert_eq!(pool.capacity(), 4);
    assert_eq!(pool.size(), 0);
    assert!(names(&pool).is_empty());
    assert!(!pool.contains("a"));
    assert!(pool.eviction_candidate().is_none());
}

#[test]
fn new_pool_needs_room_for_one() {
    assert_eq!(Pool::<String>::new(0).err(), Some(PoolError::ZeroCapacity));
    assert!(Pool::<String>::new(1).is_ok());
}

#[test]
fn get_of_absent_user_changes_nothing() {
    let mut pool: Pool<String> = Pool::new(2).unwrap();
    pool.insert("a".to_string(), "sa".to_string(), true).unwrap();
    assert!(pool.get("b").is_none());
    assert_eq!(names(&pool), vec!["a"]);
}

#[test]
fn get_hands_out_the_session_that_was_inserted() {
    let mut pool: Pool<String> = Pool::new(2).unwrap();
    pool.insert("a".to_string(), "sa".to_string(), true).unwrap();
    pool.insert("b".to_string(), "sb".to_string(), true).unwrap();
    let first = pool.get("a").unwrap();
    let second = pool.get("a").unwrap();
    assert_eq!(*first, "sa");
    assert!(Arc::ptr_eq(&first, &second));
    assert_eq!(*pool.peek("b").unwrap(), "sb");
}

#[test]
fn recency_promotion() {
    let mut pool: Pool<String> = Pool::new(3).unwrap();
    let mut persist = |_: &str| true;
    for user in ["A", "B", "C", "A"] {
        request(&mut pool, user, &mut persist).unwrap();
    }
    assert_eq!(names(&pool), vec!["A", "C", "B"]);
    assert_eq!(pool.size(), 3);
}

#[test]
fn promotion_keeps_the_order_of_the_others() {
    let mut pool: Pool<String> = Pool::new(4).unwrap();
    let mut persist = |_: &str| true;
    for user in ["a", "b", "c", "d"] {
        request(&mut pool, user, &mut persist).unwrap();
    }
    assert_eq!(names(&pool), vec!["d", "c", "b", "a"]);
    request(&mut pool, "b", &mut persist).unwrap();
    assert_eq!(names(&pool), vec!["b", "d", "c", "a"]);
    request(&mut pool, "b", &mut persist).unwrap();
    assert_eq!(names(&pool), vec!["b", "d", "c", "a"]);
    request(&mut pool, "a", &mut persist).unwrap();
    assert_eq!(names(&pool), vec!["a", "b", "d", "c"]);
}

#[test]
fn peek_does_not_promote() {
    let mut pool: Pool<String> = Pool::new(2).unwrap();
    pool.insert("a".to_string(), "sa".to_string(), true).unwrap();
    pool.insert("b".to_string(), "sb".to_string(), true).unwrap();
    assert_eq!(*pool.peek("a").unwrap(), "sa");
    assert!(pool.peek("c").is_none());
    assert_eq!(names(&pool), vec!["b", "a"]);
}

#[test]
fn lru_eviction() {
    for capacity in 1..6usize {
        let mut pool: Pool<String> = Pool::new(capacity).unwrap();
        let mut written: Vec<String> = Vec::new();
        let users: Vec<String> = (1..=capacity + 1).map(|i| format!("u{}", i)).collect();
        for user in &users {
            let mut persist = |lru: &str| {
                written.push(lru.to_string());
                true
            };
            request(&mut pool, user, &mut persist).unwrap();
            assert!(pool.size() <= capacity);
        }
        assert!(!pool.contains("u1"));
        for user in &users[1..] {
            assert!(pool.contains(user));
        }
        assert_eq!(names(&pool)[0], users[capacity]);
        assert_eq!(pool.size(), capacity);
        assert_eq!(written, vec!["u1"]);
    }
}

#[test]
fn eviction_takes_the_least_recently_used() {
    let mut pool: Pool<String> = Pool::new(3).unwrap();
    let mut persist = |_: &str| true;
    for user in ["a", "b", "c", "a", "d"] {
        request(&mut pool, user, &mut persist).unwrap();
    }
    assert_eq!(names(&pool), vec!["d", "a", "c"]);
    assert!(!pool.contains("b"));
}

#[test]
fn pool_size_bound() {
    let mut pool: Pool<String> = Pool::new(3).unwrap();
    let mut persist = |_: &str| true;
    let users = ["a", "b", "a", "c", "d", "b", "e", "e", "a", "f", "c", "g"];
    for user in users {
        let session = request(&mut pool, user, &mut persist).unwrap();
        assert_eq!(*session, format!("session of {}", user));
        assert!(pool.size() <= pool.capacity());
        assert_eq!(names(&pool)[0], user);
        assert_eq!(names(&pool).len(), pool.size());
    }
}

#[test]
fn eviction_failure_leaves_the_pool_as_it_was() {
    let mut pool: Pool<String> = Pool::new(2).unwrap();
    let mut ok = |_: &str| true;
    request(&mut pool, "a", &mut ok).unwrap();
    request(&mut pool, "b", &mut ok).unwrap();
    let mut fail = |_: &str| false;
    let result = request(&mut pool, "c", &mut fail);
    assert_eq!(result.err(), Some(PoolError::EvictionFailed("a".to_string())));
    assert_eq!(names(&pool), vec!["b", "a"]);
    assert_eq!(pool.size(), 2);
    assert!(!pool.contains("c"));
    assert_eq!(*pool.peek("a").unwrap(), "session of a");
    assert_eq!(*pool.peek("b").unwrap(), "session of b");
}

#[test]
fn insert_into_pool_with_room_ignores_the_flag() {
    let mut pool: Pool<String> = Pool::new(2).unwrap();
    assert_eq!(pool.insert("a".to_string(), "sa".to_string(), false), Ok(()));
    assert_eq!(names(&pool), vec!["a"]);
}

#[test]
fn eviction_candidate_is_the_least_recently_used_of_a_full_pool() {
    let mut pool: Pool<String> = Pool::new(2).unwrap();
    pool.insert("a".to_string(), "sa".to_string(), true).unwrap();
    assert!(pool.eviction_candidate().is_none());
    pool.insert("b".to_string(), "sb".to_string(), true).unwrap();
    let (user, session) = pool.eviction_candidate().unwrap();
    assert_eq!(user, "a");
    assert_eq!(*session, "sa");
    pool.get("a").unwrap();
    assert_eq!(pool.eviction_candidate().unwrap().0, "b");
}

#[test]
fn write_back_removes_the_session() {
    let mut pool: Pool<String> = Pool::new(3).unwrap();
    for user in ["a", "b", "c"] {
        pool.insert(user.to_string(), user.to_uppercase(), true).unwrap();
    }
    assert_eq!(pool.write_back("b", true), Ok(()));
    assert_eq!(names(&pool), vec!["c", "a"]);
    assert!(!pool.contains("b"));
    assert_eq!(pool.size(), 2);
}

#[test]
fn write_back_of_absent_user_fails() {
    let mut pool: Pool<String> = Pool::new(3).unwrap();
    pool.insert("a".to_string(), "sa".to_string(), true).unwrap();
    assert_eq!(pool.write_back("b", true), Err(PoolError::EntryNotFound("b".to_string())));
    assert_eq!(pool.write_back("b", false), Err(PoolError::EntryNotFound("b".to_string())));
    assert_eq!(names(&pool), vec!["a"]);
}

#[test]
fn write_back_that_could_not_persist_keeps_the_session() {
    let mut pool: Pool<String> = Pool::new(3).unwrap();
    pool.insert("a".to_string(), "sa".to_string(), true).unwrap();
    pool.insert("b".to_string(), "sb".to_string(), true).unwrap();
    assert_eq!(pool.write_back("a", false), Err(PoolError::EvictionFailed("a".to_string())));
    assert_eq!(names(&pool), vec!["b", "a"]);
}
