use aili::style::variable_pool::VariablePool;

#[test]
fn popping_discards_assignments_since_the_push() {
    let mut pool: VariablePool<u32> = VariablePool::new();
    pool.insert("a".to_owned(), 1);
    pool.insert("b".to_owned(), 2);
    pool.push();
    pool.insert("a".to_owned(), 10);
    pool.insert("c".to_owned(), 30);
    pool.insert("a".to_owned(), 11);
    assert_eq!(pool.get("a"), Some(&11));
    assert_eq!(pool.get("b"), Some(&2));
    assert_eq!(pool.get("c"), Some(&30));
    pool.pop();
    assert_eq!(pool.get("a"), Some(&1));
    assert_eq!(pool.get("b"), Some(&2));
    assert_eq!(pool.get("c"), None);
    // the bottom frame stays
    pool.pop();
    assert_eq!(pool.get("a"), Some(&1));
    pool.insert("d".to_owned(), 4);
    assert_eq!(pool.get("d"), Some(&4));
}

#[test]
fn default_pool_is_empty() {
    let pool: VariablePool<u32> = VariablePool::default();
    assert_eq!(pool.get("x"), None);
}
