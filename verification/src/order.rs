use vstd::prelude::*;

verus! {

/// Whether each letter is less than the next, so that none occurs twice.
pub open spec fn strictly_increasing(names: Seq<char>) -> bool {
    forall|i: int, j: int| 0 <= i < j < names.len() ==> names[i] < names[j]
}

/// Whether each value is less than the next, so that none occurs twice.
pub open spec fn ascending(values: Seq<i32>) -> bool {
    forall|i: int, j: int| 0 <= i < j < values.len() ==> values[i] < values[j]
}

/// The letters of a finite set in ascending order.
pub open spec fn letters_in_order(letters: Set<char>) -> Seq<char> {
    choose|names: Seq<char>| strictly_increasing(names) && names.to_set() == letters
}

/// The values of a finite set in ascending order.
pub open spec fn values_in_order(values: Set<i32>) -> Seq<i32> {
    choose|list: Seq<i32>| ascending(list) && list.to_set() == values
}

/// Two sequences that a key orders strictly and that hold the same elements
/// are equal.
proof fn lemma_ordered_unique<T>(a: Seq<T>, b: Seq<T>, key: spec_fn(T) -> int)
    requires
        forall|i: int, j: int| 0 <= i < j < a.len() ==> key(a[i]) < key(a[j]),
        forall|i: int, j: int| 0 <= i < j < b.len() ==> key(b[i]) < key(b[j]),
        a.to_set() == b.to_set(),
    ensures
        a == b,
    decreases a.len(),
{
    if a.len() == 0 {
        if b.len() > 0 {
            assert(a.to_set().contains(b[0]));
        }
    } else {
        assert(b.to_set().contains(a.last()));
        let k = choose|k: int| 0 <= k < b.len() && b[k] == a.last();
        assert(b.to_set().contains(b.last()));
        assert(a.to_set().contains(b.last()));
        let m = choose|m: int| 0 <= m < a.len() && a[m] == b.last();
        if k < b.len() - 1 {
            if m < a.len() - 1 {
                assert(key(a[m]) < key(a[a.len() - 1]));
            }
        }
        let a0 = a.drop_last();
        let b0 = b.drop_last();
        assert forall|x: T| a0.to_set().contains(x) == b0.to_set().contains(x) by {
            if a0.contains(x) {
                let i = choose|i: int| 0 <= i < a0.len() && a0[i] == x;
                assert(a[i] == x);
                assert(b.to_set().contains(x));
                let j = choose|j: int| 0 <= j < b.len() && b[j] == x;
                assert(j < b.len() - 1);
                assert(b0[j] == x);
            }
            if b0.contains(x) {
                let j = choose|j: int| 0 <= j < b0.len() && b0[j] == x;
                assert(b[j] == x);
                assert(a.to_set().contains(x));
                let i = choose|i: int| 0 <= i < a.len() && a[i] == x;
                assert(i < a.len() - 1);
                assert(a0[i] == x);
            }
        }
        assert(a0.to_set() =~= b0.to_set());
        assert forall|i: int, j: int| 0 <= i < j < a0.len() implies key(a0[i]) < key(a0[j]) by {
            assert(key(a[i]) < key(a[j]));
        }
        assert forall|i: int, j: int| 0 <= i < j < b0.len() implies key(b0[i]) < key(b0[j]) by {
            assert(key(b[i]) < key(b[j]));
        }
        lemma_ordered_unique(a0, b0, key);
        assert(b =~= b0.push(b.last()));
    }
}

/// Letters in ascending order are the letters of their set in ascending
/// order: there is one such sequence only.
pub proof fn lemma_letters_in_order(names: Seq<char>)
    requires
        strictly_increasing(names),
    ensures
        letters_in_order(names.to_set()) == names,
{
    let other = letters_in_order(names.to_set());
    lemma_ordered_unique(names, other, |c: char| c as int);
}

/// Values in ascending order are the values of their set in ascending
/// order: there is one such sequence only.
pub proof fn lemma_values_in_order(list: Seq<i32>)
    requires
        ascending(list),
    ensures
        values_in_order(list.to_set()) == list,
{
    let other = values_in_order(list.to_set());
    lemma_ordered_unique(list, other, |x: i32| x as int);
}

} // verus!
