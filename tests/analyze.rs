use std::path::PathBuf;

use dirstat::analyze::{apportioned_size, assemble_dir, BLOCK_SIZE};
use dirstat::order::sort_by_size;
use dirstat::{AnalyzedDir, AnalyzedFile, AnalyzedItem, AnalyzedSymlink};

fn file(name: &str, size: u64) -> AnalyzedItem {
    AnalyzedItem::File(AnalyzedFile { hardlink_count: 1, size, path: PathBuf::from(name) })
}

fn link(name: &str, size: u64) -> AnalyzedItem {
    AnalyzedItem::Symlink(AnalyzedSymlink {
        hardlink_count: 1,
        size,
        path: PathBuf::from(name),
        link: PathBuf::from("target"),
    })
}

fn sizes(d: &AnalyzedDir) -> Vec<u64> {
    d.children.iter().map(|c| c.size()).collect()
}

#[test]
fn apportioned_size_of_single_link() {
    assert_eq!(BLOCK_SIZE, 512);
    assert_eq!(apportioned_size(8, 1), 4096);
    assert_eq!(apportioned_size(0, 1), 0);
}

#[test]
fn apportioned_size_rounds_down() {
    assert_eq!(apportioned_size(1, 3), 170);
    assert_eq!(apportioned_size(3, 7), 219);
}

#[test]
fn hardlinked_twice_gets_half_each() {
    let a = AnalyzedFile::new(PathBuf::from("/t/a"), 16, 2);
    let b = AnalyzedFile::new(PathBuf::from("/t/sub/b"), 16, 2);
    assert_eq!(a.size, 16 * 512 / 2);
    assert_eq!(b.size, 4096);
    assert_eq!(a.hardlink_count, 2);
    let d = assemble_dir(
        PathBuf::from("/t"),
        vec![AnalyzedItem::File(a), AnalyzedItem::File(b)],
    )
    .unwrap();
    assert_eq!(d.size, 8192);
    assert_eq!(d.num_files, 2);
}

#[test]
fn symlink_constructor_keeps_target() {
    let s = AnalyzedSymlink::new(PathBuf::from("/t/l"), PathBuf::from("../x"), 1, 1);
    assert_eq!(s.size, 512);
    assert_eq!(s.link, PathBuf::from("../x"));
    assert_eq!(s.path, PathBuf::from("/t/l"));
}

#[test]
fn assemble_orders_largest_first_and_sums() {
    let d = assemble_dir(
        PathBuf::from("/r"),
        vec![file("a", 30), file("b", 100), link("c", 50), file("d", 30)],
    )
    .unwrap();
    assert_eq!(sizes(&d), vec![100, 50, 30, 30]);
    assert_eq!(d.size, 210);
    assert_eq!(d.num_files, 4);
    assert_eq!(d.num_symlinks, 1);
    assert_eq!(d.num_dirs, 0);
    assert_eq!(d.path, PathBuf::from("/r"));
    assert_eq!(d.children[0].path(), &PathBuf::from("b"));
}

#[test]
fn assemble_counts_nested_directories() {
    let inner = assemble_dir(PathBuf::from("/r/s/t"), vec![link("l", 4)]).unwrap();
    let sub = assemble_dir(
        PathBuf::from("/r/s"),
        vec![file("f", 10), AnalyzedItem::Dir(inner)],
    )
    .unwrap();
    assert_eq!(sub.num_dirs, 1);
    assert_eq!(sub.num_files, 2);
    assert_eq!(sub.num_symlinks, 1);
    let root = assemble_dir(
        PathBuf::from("/r"),
        vec![file("g", 1), AnalyzedItem::Dir(sub), file("h", 20)],
    )
    .unwrap();
    assert_eq!(root.size, 35);
    assert_eq!(root.num_dirs, 2);
    assert_eq!(root.num_files, 4);
    assert_eq!(root.num_symlinks, 1);
    assert_eq!(sizes(&root), vec![20, 14, 1]);
    assert!(matches!(root.children[1], AnalyzedItem::Dir(_)));
    assert_eq!(root.children[1].size(), 14);
    assert_eq!(root.children[1].path(), &PathBuf::from("/r/s"));
}

#[test]
fn assemble_empty_directory() {
    let d = assemble_dir(PathBuf::from("/e"), vec![]).unwrap();
    assert!(d.children.is_empty());
    assert_eq!(d.size, 0);
    assert_eq!((d.num_files, d.num_dirs, d.num_symlinks), (0, 0, 0));
}

#[test]
fn assemble_refuses_size_overflow() {
    let d = assemble_dir(PathBuf::from("/o"), vec![file("a", u64::MAX), file("b", 1)]);
    assert!(d.is_none());
    let d = assemble_dir(PathBuf::from("/o"), vec![file("a", u64::MAX), file("b", 0)]);
    assert_eq!(d.unwrap().size, u64::MAX);
}

#[test]
fn assemble_refuses_directory_count_overflow() {
    let deep = AnalyzedDir {
        children: vec![],
        path: PathBuf::from("/o/d"),
        size: 0,
        num_symlinks: 0,
        num_files: 0,
        num_dirs: u64::MAX,
    };
    assert!(assemble_dir(PathBuf::from("/o"), vec![AnalyzedItem::Dir(deep)]).is_none());
}

#[test]
fn sort_keeps_every_entry() {
    let v = sort_by_size(vec![file("a", 3), file("b", 9), file("c", 1), file("d", 9), file("e", 5)]);
    let got: Vec<u64> = v.iter().map(|c| c.size()).collect();
    assert_eq!(got, vec![9, 9, 5, 3, 1]);
    let mut names: Vec<String> = v.iter().map(|c| c.path().display().to_string()).collect();
    names.sort();
    assert_eq!(names, vec!["a", "b", "c", "d", "e"]);
}

#[test]
fn sort_large_input() {
    let v: Vec<AnalyzedItem> = (0..5000u64).map(|i| file("x", (i * 7919) % 1000)).collect();
    let sorted = sort_by_size(v);
    assert_eq!(sorted.len(), 5000);
    assert!(sorted.windows(2).all(|w| w[0].size() >= w[1].size()));
}
