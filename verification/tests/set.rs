use boolean_evaluation::set::{contains_value, filtered, IntSet};

fn member(set: &IntSet, x: i32) -> bool {
    set.values.contains(&x) != set.is_complement
}

#[test]
fn complement_flips_the_flag_and_keeps_the_values() {
    let set = IntSet::from(vec![3, 1, 2]).complement();
    assert_eq!(set.values, vec![3, 1, 2]);
    assert!(set.is_complement);
    assert_eq!(set.complement(), IntSet::from(vec![3, 1, 2]));
    assert_eq!(IntSet::from(vec![5]).not(), IntSet::from(vec![5]).complement());
}

#[test]
fn union_appends_what_is_missing_in_order() {
    let set = IntSet::from(vec![3, 1, 2]).union(IntSet::from(vec![2, 9, 3, 4]));
    assert_eq!(set, IntSet::from(vec![3, 1, 2, 9, 4]));
    let set = IntSet::from(vec![]).union(IntSet::from(vec![]));
    assert_eq!(set, IntSet::from(vec![]));
}

#[test]
fn filtered_keeps_or_drops_what_the_other_list_holds() {
    assert_eq!(filtered(&vec![1, 2, 3, 4], &vec![4, 2], true), vec![2, 4]);
    assert_eq!(filtered(&vec![1, 2, 3, 4], &vec![4, 2], false), vec![1, 3]);
    assert!(contains_value(&vec![1, 2, 3], 2));
    assert!(!contains_value(&vec![1, 2, 3], 5));
    assert!(!contains_value(&vec![], 0));
}

#[test]
fn union_and_intersection_mean_or_and_and_of_membership() {
    let sides = [
        IntSet::from(vec![1, 2, 3]),
        IntSet::from(vec![3, 4]),
        IntSet::from(vec![1, 2, 3]).complement(),
        IntSet::from(vec![3, 4]).complement(),
        IntSet::from(vec![]),
        IntSet::from(vec![]).complement(),
    ];
    for a in &sides {
        for b in &sides {
            let union = a.clone() | b.clone();
            let intersection = a.clone() & b.clone();
            for x in 0..6 {
                assert_eq!(member(&union, x), member(a, x) || member(b, x));
                assert_eq!(member(&intersection, x), member(a, x) && member(b, x));
            }
        }
    }
}

#[test]
fn the_four_flag_cases_of_union_and_intersection() {
    let a = || IntSet::from(vec![1, 2, 3]);
    let b = || IntSet::from(vec![3, 4]);
    assert_eq!(a() | b(), IntSet::from(vec![1, 2, 3, 4]));
    assert_eq!(a().complement() | b().complement(), IntSet::from(vec![3]).complement());
    assert_eq!(a().complement() | b(), IntSet::from(vec![1, 2]).complement());
    assert_eq!(a() | b().complement(), IntSet::from(vec![4]).complement());
    assert_eq!(a() & b(), IntSet::from(vec![3]));
    assert_eq!(a().complement() & b().complement(), IntSet::from(vec![1, 2, 3, 4]).complement());
    assert_eq!(a().complement() & b(), IntSet::from(vec![4]));
    assert_eq!(a() & b().complement(), IntSet::from(vec![1, 2]));
}
