use sxd_document::string_pool::StringPool;

#[test]
fn interning_is_idempotent() {
    let mut pool = StringPool::new();
    let h1 = pool.intern("hello".to_string());
    let len_after_first = pool.len();
    let h2 = pool.intern("hello".to_string());
    assert_eq!(h1, h2);
    assert_eq!(pool.len(), len_after_first);
    assert_eq!(pool.get(h1), "hello");
}

#[test]
fn distinct_content_gets_distinct_handles() {
    let mut pool = StringPool::new();
    let h1 = pool.intern("a".to_string());
    let h2 = pool.intern("b".to_string());
    let h3 = pool.intern("a".to_string());
    assert_ne!(h1, h2);
    assert_eq!(h1, h3);
    assert_eq!(pool.len(), 2);
    assert_eq!(pool.get(h2), "b");
}

#[test]
fn document_content_is_interned() {
    // equal content across the document shares one pool entry
    let mut pool = StringPool::new();
    let a = pool.intern("same-text".to_string());
    let b = pool.intern("other".to_string());
    let c = pool.intern("same-text".to_string());
    assert_eq!(a, c);
    assert_ne!(a, b);
    assert_eq!(pool.len(), 2);
}
