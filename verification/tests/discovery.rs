use std::path::{Path, PathBuf};

use athenaeum::discovery::sorted_order;

fn key(p: &Path) -> Vec<Vec<u8>> {
    p.components().map(|c| c.as_os_str().as_encoded_bytes().to_vec()).collect()
}

#[test]
fn sorted_order_follows_path_order() {
    let files: Vec<PathBuf> = ["dir/b.md", "dir/a-c.md", "dir/a/b.md", "dir/a", "dir/B.pdf", "dir/a/a.epub"]
        .iter()
        .map(PathBuf::from)
        .collect();
    let keys: Vec<Vec<Vec<u8>>> = files.iter().map(|p| key(p)).collect();
    let order = sorted_order(&keys);
    let listed: Vec<PathBuf> = order.iter().map(|&i| files[i].clone()).collect();
    let mut expected = files.clone();
    expected.sort();
    assert_eq!(listed, expected);
    assert_eq!(order, vec![4, 3, 5, 2, 1, 0]);
}

#[test]
fn sorted_order_of_nothing_is_empty() {
    assert!(sorted_order(&Vec::new()).is_empty());
}

#[test]
fn sorted_order_keeps_equal_paths_in_place() {
    let keys = vec![vec![b"x".to_vec()], vec![b"a".to_vec()], vec![b"x".to_vec()]];
    assert_eq!(sorted_order(&keys), vec![1, 0, 2]);
}

