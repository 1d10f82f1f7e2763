//! Strictly increasing lists of numbers: what sorting and removing duplicates leaves.

use vstd::prelude::*;

verus! {

/// Each value is larger than the one before it, so the list is sorted and holds nothing twice.
pub open spec fn strictly_increasing(values: Seq<usize>) -> bool {
    forall|i: int, j: int| 0 <= i < j < values.len() ==> values[i] < values[j]
}

/// Adds `value` to a strictly increasing list at its place, unless it is there already.
pub fn insert_ordered(values: &mut Vec<usize>, value: usize)
    requires
        strictly_increasing(old(values)@),
    ensures
        strictly_increasing(final(values)@),
        forall|v: usize|
            final(values)@.contains(v) <==> (old(values)@.contains(v) || v == value),
{
    let mut place: usize = 0;
    while place < values.len() && values[place] < value
        invariant
            place <= values@.len(),
            values@ == old(values)@,
            forall|i: int| 0 <= i < place ==> values@[i] < value,
        decreases values@.len() - place,
    {
        place += 1;
    }
    if place < values.len() && values[place] == value {
        assert(old(values)@[place as int] == value);
        return;
    }
    let ghost before = values@;
    values.insert(place, value);
    proof {
        let after = values@;
        assert(after == before.insert(place as int, value));
        assert forall|v: usize| after.contains(v) <==> (before.contains(v) || v == value) by {
            if before.contains(v) {
                let i = choose|i: int| 0 <= i < before.len() && before[i] == v;
                if i < place {
                    assert(after[i] == v);
                } else {
                    assert(after[i + 1] == v);
                }
            }
            if v == value {
                assert(after[place as int] == v);
            }
            if after.contains(v) && v != value {
                let i = choose|i: int| 0 <= i < after.len() && after[i] == v;
                if i < place {
                    assert(before[i] == v);
                } else {
                    assert(before[i - 1] == v);
                }
            }
        }
    }
}

/// Two strictly increasing lists that hold the same values are the same list.
pub proof fn law_order_is_unique(a: Seq<usize>, b: Seq<usize>)
    requires
        strictly_increasing(a),
        strictly_increasing(b),
        forall|v: usize| a.contains(v) <==> b.contains(v),
    ensures
        a == b,
    decreases a.len(),
{
    if a.len() == 0 {
        if b.len() > 0 {
            assert(b.contains(b[0]));
        }
        assert(a =~= b);
    } else {
        assert(a.contains(a.last()));
        assert(b.len() > 0);
        let top = a.last();
        let i = choose|i: int| 0 <= i < b.len() && b[i] == top;
        assert(b.contains(b.last()));
        let j = choose|j: int| 0 <= j < a.len() && a[j] == b.last();
        assert(b.last() == top);
        let a1 = a.drop_last();
        let b1 = b.drop_last();
        assert forall|v: usize| a1.contains(v) <==> b1.contains(v) by {
            if a1.contains(v) {
                let k = choose|k: int| 0 <= k < a1.len() && a1[k] == v;
                assert(a[k] == v);
                assert(b.contains(v));
                let m = choose|m: int| 0 <= m < b.len() && b[m] == v;
                assert(b1[m] == v);
            }
            if b1.contains(v) {
                let k = choose|k: int| 0 <= k < b1.len() && b1[k] == v;
                assert(b[k] == v);
                assert(a.contains(v));
                let m = choose|m: int| 0 <= m < a.len() && a[m] == v;
                assert(a1[m] == v);
            }
        }
        law_order_is_unique(a1, b1);
        assert(a =~= a1.push(top));
        assert(b =~= b1.push(top));
    }
}

} // verus!
