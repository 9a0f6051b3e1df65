use buk::fsutil::{copy_chunk_size, first_error};
use buk::text::{path_less, reversed, same_text, sort_dedup_paths, sort_paths};

fn strings(v: &[&str]) -> Vec<String> {
    v.iter().map(|s| s.to_string()).collect()
}

#[test]
fn path_order_puts_separator_first() {
    assert!(path_less("a/b", "a-b"));
    assert!(!path_less("a-b", "a/b"));
    assert!(path_less("a", "a/b"));
    assert!(!path_less("a", "a"));
    assert!(path_less("/x", "x"));
    assert!(same_text("é/x", "é/x"));
    assert!(!same_text("é", "e"));
}

#[test]
fn sorting_and_dedup() {
    assert_eq!(sort_paths(strings(&["b", "a-b", "a/b", "a"])), strings(&["a", "a/b", "a-b", "b"]));
    assert_eq!(sort_dedup_paths(strings(&["b", "a", "b", "a"])), strings(&["a", "b"]));
    assert_eq!(reversed(strings(&["1", "2", "3"])), strings(&["3", "2", "1"]));
}

#[test]
fn copy_pool_sizing() {
    assert_eq!(copy_chunk_size(1000, Some(16)), 63);
    assert_eq!(copy_chunk_size(10, None), 3);
    assert_eq!(copy_chunk_size(3, Some(8)), 1);
    assert_eq!(copy_chunk_size(2, Some(1)), 2);
    assert_eq!(first_error(vec![None, Some("b".to_string()), Some("c".to_string())]), Err("b".to_string()));
    assert_eq!(first_error(vec![None, None]), Ok(()));
}
