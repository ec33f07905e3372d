use libsfs::fragments::{allocate, flatten_fragments, merge_adjacent, merge_fragments, release, sorted_pairs};
use libsfs::record::DirectoryRecord;

#[test]
fn merge_joins_adjacent_extents() {
    let f = vec![(3usize, vec![10usize]), (2, vec![13, 0])];
    assert_eq!(merge_fragments(&f), vec![(2usize, vec![0usize]), (5, vec![10])]);
}

#[test]
fn merge_of_nothing_is_one_empty_extent() {
    let f: Vec<(usize, Vec<usize>)> = vec![(8, vec![])];
    assert_eq!(merge_fragments(&f), vec![(0usize, vec![0usize])]);
}

#[test]
fn merge_keeps_free_bytes() {
    let f = vec![(1usize, vec![5usize, 0, 9]), (4, vec![1, 20]), (6, vec![30])];
    let total = |g: &Vec<(usize, Vec<usize>)>| g.iter().map(|(s, o)| s * o.len()).sum::<usize>();
    let m = merge_fragments(&f);
    assert_eq!(total(&m), total(&f));
    // 0..1, 1..5, 5..6 join; 9..10 alone; 20..24 alone; 30..36 alone
    assert_eq!(m, vec![(1usize, vec![9usize]), (4, vec![20]), (6, vec![0, 30])]);
}

#[test]
fn flatten_and_sort_pairs() {
    let f = vec![(3usize, vec![10usize, 1]), (2, vec![4])];
    let flat = flatten_fragments(&f);
    assert_eq!(flat, vec![(10, 3), (1, 3), (4, 2)]);
    assert_eq!(sorted_pairs(&flat), vec![(1, 3), (4, 2), (10, 3)]);
    assert_eq!(merge_adjacent(&sorted_pairs(&flat)), vec![(1, 5), (10, 3)]);
    assert_eq!(merge_adjacent(&vec![]), vec![(0, 0)]);
}

#[test]
fn allocate_takes_from_first_large_enough_group() {
    let mut f = vec![(4usize, vec![100usize]), (8, vec![200, 300])];
    let mut end = 1000usize;
    assert_eq!(allocate(&mut f, &mut end, 6), 300);
    assert_eq!(f, vec![(4usize, vec![100usize]), (8, vec![200])]);
    assert_eq!(allocate(&mut f, &mut end, 4), 100);
    assert_eq!(f, vec![(4usize, vec![]), (8, vec![200])]);
    assert_eq!(allocate(&mut f, &mut end, 3), 1000);
    assert_eq!(end, 1003);
    assert_eq!(f, vec![(8usize, vec![200usize])]);
    assert_eq!(allocate(&mut f, &mut end, 9), 1003);
    assert_eq!(end, 1012);
}

#[test]
fn release_appends_or_inserts_empty_group() {
    let mut f = vec![(4usize, vec![100usize])];
    release(&mut f, 50, 4);
    assert_eq!(f, vec![(4usize, vec![100usize, 50])]);
    release(&mut f, 7, 2);
    assert_eq!(f, vec![(2usize, vec![]), (4, vec![100, 50])]);
}

#[test]
fn directory_insert_get_remove() {
    let mut d = DirectoryRecord::new();
    assert_eq!(d.insert("a".to_string(), 1), None);
    assert_eq!(d.insert("b".to_string(), 2), None);
    assert_eq!(d.insert("a".to_string(), 3), Some(1));
    assert_eq!(d.get("a"), Some(3));
    assert_eq!(d.ids(), vec![3, 2]);
    assert_eq!(d.remove("a"), Some(3));
    assert_eq!(d.remove("a"), None);
    assert_eq!(d.get("a"), None);
    assert_eq!(d.to_pairs(), vec![("b".to_string(), 2)]);
    assert!(d.has_distinct_names());
    let e = DirectoryRecord::from_pairs(vec![("x".to_string(), 1), ("x".to_string(), 2)]);
    assert_eq!(e.to_pairs(), vec![("x".to_string(), 2)]);
}

#[test]
fn merged_extents_have_gaps_and_ascending_offsets() {
    let f = vec![(2usize, vec![40usize, 8, 0]), (3, vec![2, 20]), (5, vec![50])];
    let m = merge_fragments(&f);
    // 0..2 and 2..5 join; 8..10 alone; 20..23 alone; 40..42 alone; 50..55 alone
    assert_eq!(m, vec![(2usize, vec![8usize, 40]), (3, vec![20]), (5, vec![0, 50])]);
    let flat = flatten_fragments(&m);
    for &(o1, s1) in &flat {
        for &(o2, _) in &flat {
            assert_ne!(o1 + s1, o2);
        }
    }
}

#[test]
fn merging_twice_changes_nothing() {
    let f = vec![(1usize, vec![5usize, 0, 9]), (4, vec![1, 20]), (6, vec![30])];
    let once = merge_fragments(&f);
    assert_eq!(merge_fragments(&once), once);
    let empty: Vec<(usize, Vec<usize>)> = Vec::new();
    let none = merge_fragments(&empty);
    assert_eq!(merge_fragments(&none), none);
}

#[test]
fn allocated_extent_overlaps_nothing_live_or_free() {
    let live = vec![(0usize, 10usize), (30, 5)];
    let mut f = vec![(6usize, vec![10usize, 20]), (15, vec![40])];
    let mut end = 60usize;
    let off = allocate(&mut f, &mut end, 5);
    assert_eq!(off, 20);
    let apart = |a: (usize, usize), b: (usize, usize)| a.0 + a.1 <= b.0 || b.0 + b.1 <= a.0;
    for &l in &live {
        assert!(apart((off, 5), l));
    }
    for (size, offs) in &f {
        for &o in offs {
            assert!(apart((off, 5), (o, *size)));
            assert!(o + size <= end);
        }
    }
    assert!(off + 5 <= end);
    let grown = allocate(&mut f, &mut end, 20);
    assert_eq!((grown, end), (60, 80));
}

#[test]
fn merging_twice_with_an_empty_extent_changes_nothing() {
    let f = vec![(0usize, vec![0usize]), (4, vec![10, 14]), (2, vec![5])];
    let once = merge_fragments(&f);
    assert_eq!(merge_fragments(&once), once);
}
