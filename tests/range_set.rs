use rrdt::range_ext::RangeExt;
use rrdt::range_set::RangeSet;

fn ranges(s: &RangeSet) -> Vec<(u64, u64)> {
    s.iter().into_iter().map(|r| (r.start, r.end)).collect()
}

#[test]
fn insert_merges_adjacent_and_overlapping() {
    let mut s = RangeSet::new();
    assert!(s.insert(0..5));
    assert!(s.insert(10..15));
    assert!(s.insert(5..10));
    assert_eq!(ranges(&s), vec![(0, 15)]);
    assert!(!s.insert(3..7));
    assert!(!s.insert(4..4));
    assert!(s.insert(14..20));
    assert_eq!(ranges(&s), vec![(0, 20)]);
    assert!(s.insert(30..31));
    assert!(s.insert(25..26));
    assert_eq!(ranges(&s), vec![(0, 20), (25, 26), (30, 31)]);
    assert!(s.insert(19..35));
    assert_eq!(ranges(&s), vec![(0, 35)]);
}

#[test]
fn remove_splits_and_reports() {
    let mut s = RangeSet::new();
    s.insert(0..10);
    s.insert(20..30);
    assert!(s.remove(5..25));
    assert_eq!(ranges(&s), vec![(0, 5), (25, 30)]);
    assert!(!s.remove(10..20));
    assert!(!s.remove(7..7));
    assert!(s.remove_one(0));
    assert!(!s.remove_one(0));
    assert_eq!(ranges(&s), vec![(1, 5), (25, 30)]);
    assert!(s.remove(0..100));
    assert!(s.is_empty());
}

#[test]
fn insert_remove_sequence_keeps_ranges_canonical() {
    let mut s = RangeSet::new();
    let mut model = std::collections::BTreeSet::new();
    let ops: [(bool, u64, u64); 12] = [
        (true, 5, 9), (true, 1, 3), (true, 3, 5), (false, 2, 4), (true, 20, 22), (true, 9, 20),
        (false, 10, 11), (true, 0, 1), (false, 21, 40), (true, 11, 12), (true, 40, 41), (false, 6, 7),
    ];
    for (ins, a, b) in ops {
        if ins {
            s.insert(a..b);
            for x in a..b { model.insert(x); }
        } else {
            s.remove(a..b);
            for x in a..b { model.remove(&x); }
        }
        let rs = ranges(&s);
        for w in rs.windows(2) {
            assert!(w[0].1 < w[1].0);
        }
        for r in &rs {
            assert!(r.0 < r.1);
        }
        for x in 0..50u64 {
            assert_eq!(s.contains(x), model.contains(&x));
        }
        assert_eq!(s.elements_len(), model.len() as u64);
    }
}

#[test]
fn insert_one_and_contains() {
    let mut s = RangeSet::new();
    assert!(s.insert_one(3));
    assert!(s.insert_one(5));
    assert!(s.insert_one(4));
    assert!(!s.insert_one(4));
    assert_eq!(ranges(&s), vec![(3, 6)]);
    assert!(s.contains(3) && s.contains(5) && !s.contains(6) && !s.contains(2));
    assert_eq!(s.len(), 1);
}

#[test]
fn contains_range_checks_one_run() {
    let mut s = RangeSet::new();
    s.insert(0..10);
    s.insert(20..30);
    assert!(s.contains_range(&(2..8)));
    assert!(s.contains_range(&(0..10)));
    assert!(!s.contains_range(&(5..25)));
    assert!(!s.contains_range(&(10..12)));
    assert!(s.contains_range(&(20..30)));
}

#[test]
fn union_and_difference() {
    let mut a = RangeSet::new();
    a.insert(0..5);
    a.insert(10..15);
    let mut b = RangeSet::new();
    b.insert(4..11);
    b.insert(20..21);
    let mut u = a.clone();
    u.union(&b);
    assert_eq!(ranges(&u), vec![(0, 15), (20, 21)]);
    let mut d = a.clone();
    d.difference(&b);
    assert_eq!(ranges(&d), vec![(0, 4), (11, 15)]);
}

#[test]
fn ends_and_pops() {
    let mut s = RangeSet::new();
    assert_eq!(s.min(), None);
    assert_eq!(s.max(), None);
    assert_eq!(s.pop_front(), None);
    s.insert(3..5);
    s.insert(8..12);
    assert_eq!(s.min(), Some(3));
    assert_eq!(s.max(), Some(11));
    assert_eq!(s.first(), Some(3..5));
    assert_eq!(s.last(), Some(8..12));
    assert_eq!(s.elements_len(), 6);
    assert_eq!(s.pop_back(), Some(8..12));
    assert_eq!(s.pop_front(), Some(3..5));
    assert!(s.is_empty());
}

#[test]
fn range_ext_splits() {
    let mut r = 10u64..20;
    assert_eq!(RangeExt::len(&r), 10);
    let head = r.split_to(4);
    assert_eq!(head, 10..14);
    assert_eq!(r, 14..20);
    let tail = r.split_off(100);
    assert_eq!(tail, 14..20);
    assert_eq!(r, 14..20);
    let kept = r.split_off(2);
    assert_eq!(kept, 14..16);
    assert_eq!(r, 14..16);
    let mut q = 0u64..10;
    let (a, b) = q.split_at(3);
    assert_eq!(a, 0..3);
    assert_eq!(b, 3..10);
    assert_eq!(q, 3..10);
}

#[test]
fn replace_reports_present_parts() {
    let mut s = RangeSet::new();
    s.insert(0..5);
    s.insert(8..10);
    s.insert(20..30);
    let r = s.replace(3..22);
    assert_eq!(r, vec![3..5, 8..10, 20..22]);
    assert_eq!(ranges(&s), vec![(0, 30)]);
    let r = s.replace(40..45);
    assert!(r.is_empty());
    assert_eq!(ranges(&s), vec![(0, 30), (40, 45)]);
    assert!(s.replace(7..7).is_empty());
}

#[test]
fn elements_in_increasing_order() {
    let mut s = RangeSet::new();
    assert!(s.elements().is_empty());
    s.insert(5..6);
    s.insert(1..3);
    assert_eq!(s.elements(), vec![1, 2, 5]);
}
