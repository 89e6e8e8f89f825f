use std::path::PathBuf;

use dirstat::analyze::assemble_dir;
use dirstat::partition::{partition, PartitionElement};
use dirstat::{AnalyzedDir, AnalyzedFile, AnalyzedItem};

fn file(size: u64) -> AnalyzedItem {
    AnalyzedItem::File(AnalyzedFile { hardlink_count: 1, size, path: PathBuf::from("f") })
}

fn dir_of(sizes: &[u64]) -> AnalyzedDir {
    assemble_dir(PathBuf::from("/d"), sizes.iter().map(|s| file(*s)).collect()).unwrap()
}

struct Slot {
    weight: f64,
    bounds: treemap::Rect,
}

impl treemap::Mappable for Slot {
    fn size(&self) -> f64 {
        self.weight
    }

    fn bounds(&self) -> &treemap::Rect {
        &self.bounds
    }

    fn set_bounds(&mut self, bounds: treemap::Rect) {
        self.bounds = bounds;
    }
}

#[test]
fn three_files_in_a_square() {
    let d = dir_of(&[30, 100, 50]);
    let parts = partition(0, &d);
    assert_eq!(
        parts,
        vec![
            PartitionElement { size: 100, item: Some(0) },
            PartitionElement { size: 50, item: Some(1) },
            PartitionElement { size: 30, item: Some(2) },
        ]
    );
    let mut slots: Vec<Slot> = parts
        .iter()
        .map(|p| Slot { weight: p.size as f64, bounds: treemap::Rect::default() })
        .collect();
    treemap::TreemapLayout::new()
        .layout_items(&mut slots, treemap::Rect::from_points(0.0, 0.0, 10.0, 10.0));
    let areas: Vec<f64> = slots.iter().map(|s| s.bounds.w * s.bounds.h).collect();
    let total: f64 = areas.iter().sum();
    assert!((total - 100.0).abs() < 1e-6);
    for s in &slots {
        assert!(s.bounds.x >= -1e-9 && s.bounds.y >= -1e-9);
        assert!(s.bounds.x + s.bounds.w <= 10.0 + 1e-9);
        assert!(s.bounds.y + s.bounds.h <= 10.0 + 1e-9);
    }
    for (i, a) in slots.iter().enumerate() {
        for b in &slots[i + 1..] {
            let w = (a.bounds.x + a.bounds.w).min(b.bounds.x + b.bounds.w) - a.bounds.x.max(b.bounds.x);
            let h = (a.bounds.y + a.bounds.h).min(b.bounds.y + b.bounds.h) - a.bounds.y.max(b.bounds.y);
            assert!(w <= 1e-9 || h <= 1e-9);
        }
    }
}

#[test]
fn many_unit_files_at_threshold_one() {
    let d = dir_of(&vec![1; 1001]);
    let parts = partition(1, &d);
    assert_eq!(parts.len(), 1001);
    assert!(parts.iter().all(|p| p.item.is_some() && p.size == 1));
    assert_eq!(parts[1000].item, Some(1000));
}

#[test]
fn many_unit_files_above_threshold() {
    let d = dir_of(&vec![1; 1001]);
    let parts = partition(2, &d);
    assert_eq!(parts, vec![PartitionElement { size: 1001, item: None }]);
}

#[test]
fn empty_directory_has_no_slots() {
    let d = dir_of(&[]);
    assert!(partition(0, &d).is_empty());
    assert!(partition(5, &d).is_empty());
}

#[test]
fn small_children_share_one_slot() {
    let d = dir_of(&[1, 100, 3, 50, 2]);
    let parts = partition(10, &d);
    assert_eq!(
        parts,
        vec![
            PartitionElement { size: 100, item: Some(0) },
            PartitionElement { size: 50, item: Some(1) },
            PartitionElement { size: 6, item: None },
        ]
    );
    let weights: u64 = parts.iter().map(|p| p.size).sum();
    assert_eq!(weights, d.size);
}

#[test]
fn everything_below_threshold() {
    let d = dir_of(&[4, 5]);
    assert_eq!(partition(6, &d), vec![PartitionElement { size: 9, item: None }]);
}

#[test]
fn zero_sized_directory_has_no_slots() {
    let d = dir_of(&[0, 0]);
    assert_eq!(d.size, 0);
    assert!(partition(0, &d).is_empty());
    assert!(partition(3, &d).is_empty());
}

#[test]
fn zero_sized_child_below_threshold_is_aggregated() {
    let d = dir_of(&[7, 0]);
    assert_eq!(
        partition(1, &d),
        vec![PartitionElement { size: 7, item: Some(0) }, PartitionElement { size: 0, item: None }]
    );
    assert_eq!(
        partition(0, &d),
        vec![PartitionElement { size: 7, item: Some(0) }, PartitionElement { size: 0, item: Some(1) }]
    );
}
