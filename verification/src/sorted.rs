//! Ascending lists of numbers without repetition.
use vstd::prelude::*;

verus! {

pub open spec fn ascending(s: Seq<u64>) -> bool {
    forall|i: int, j: int| 0 <= i < j < s.len() ==> #[trigger] s[i] < #[trigger] s[j]
}

/// Put `x` where it belongs, unless it is there.
pub fn insert_sorted(v: &mut Vec<u64>, x: u64)
    requires
        ascending(old(v)@),
    ensures
        ascending(final(v)@),
        forall|y: u64| #[trigger] final(v)@.contains(y) <==> old(v)@.contains(y) || y == x,
{
    let ghost before = v@;
    let mut i: usize = 0;
    while i < v.len() && v[i] < x
        invariant
            i <= v@.len(),
            v@ == before,
            forall|j: int| 0 <= j < i ==> #[trigger] v@[j] < x,
        decreases v@.len() - i,
    {
        i = i + 1;
    }
    if i < v.len() && v[i] == x {
        assert(v@[i as int] == x);
        return;
    }
    v.insert(i, x);
    let ghost after = v@;
    proof {
        assert(after == before.insert(i as int, x));
        assert forall|a: int, b: int| 0 <= a < b < after.len() implies #[trigger] after[a]
            < #[trigger] after[b] by {
            let a0 = if a <= i { a } else { a - 1 };
            let b0 = if b <= i { b } else { b - 1 };
            assert(a != i ==> after[a] == before[a0]);
            assert(b != i ==> after[b] == before[b0]);
            if a == i && b > i {
                assert(before[i as int] <= before[b0]);
            }
        }
        assert forall|y: u64| #[trigger] after.contains(y) <==> before.contains(y) || y == x by {
            if after.contains(y) && y != x {
                let c = after.index_of(y);
                assert(before[if c < i { c } else { c - 1 }] == y);
            }
            if before.contains(y) {
                let c = before.index_of(y);
                assert(after[if c < i { c } else { c + 1 }] == y);
            }
            assert(after[i as int] == x);
        }
    }
}

/// The numbers of a list, ascending, each once.
pub fn sort_dedup(v: &Vec<u64>) -> (r: Vec<u64>)
    ensures
        ascending(r@),
        forall|y: u64| #[trigger] r@.contains(y) <==> v@.contains(y),
{
    let mut out: Vec<u64> = Vec::new();
    for i in 0..v.len()
        invariant
            ascending(out@),
            forall|y: u64| #[trigger] out@.contains(y) <==> v@.take(i as int).contains(y),
    {
        insert_sorted(&mut out, v[i]);
        assert forall|y: u64| #[trigger] out@.contains(y) <==> v@.take(i + 1).contains(y) by {
            if v@.take(i as int).contains(y) {
                let c = v@.take(i as int).index_of(y);
                assert(v@.take(i + 1)[c] == y);
            }
            if y == v@[i as int] {
                assert(v@.take(i + 1)[i as int] == y);
            }
            if v@.take(i + 1).contains(y) && y != v@[i as int] {
                let c = v@.take(i + 1).index_of(y);
                assert(v@.take(i as int)[c] == y);
            }
        }
    }
    assert(v@.take(v@.len() as int) =~= v@);
    out
}

/// A set has one ascending list.
pub proof fn law_ascending_is_canonical(a: Seq<u64>, b: Seq<u64>)
    requires
        ascending(a),
        ascending(b),
        forall|y: u64| #[trigger] a.contains(y) <==> b.contains(y),
    ensures
        a == b,
    decreases a.len() + b.len(),
{
    if a.len() == 0 {
        if b.len() > 0 {
            assert(b.contains(b[0]));
            assert(a.contains(b[0]));
        }
        assert(a =~= b);
    } else if b.len() == 0 {
        assert(a.contains(a[0]));
        assert(b.contains(a[0]));
    } else {
        let x = a.last();
        let y = b.last();
        assert(x == y) by {
            assert(a.contains(x) && b.contains(y));
            assert(b.contains(x) && a.contains(y));
            let c = b.index_of(x);
            let d = a.index_of(y);
            assert(x <= y) by {
                if c < b.len() - 1 {
                    assert(b[c] < b[b.len() - 1]);
                }
            }
            assert(y <= x) by {
                if d < a.len() - 1 {
                    assert(a[d] < a[a.len() - 1]);
                }
            }
        }
        let a0 = a.drop_last();
        let b0 = b.drop_last();
        assert forall|z: u64| #[trigger] a0.contains(z) <==> b0.contains(z) by {
            if a0.contains(z) {
                let c = a0.index_of(z);
                assert(a[c] == z);
                assert(a[c] < a[a.len() - 1]);
                assert(a.contains(z));
                assert(b.contains(z));
                let e = b.index_of(z);
                assert(b0[e] == z);
            }
            if b0.contains(z) {
                let c = b0.index_of(z);
                assert(b[c] == z);
                assert(b[c] < b[b.len() - 1]);
                assert(b.contains(z));
                assert(a.contains(z));
                let e = a.index_of(z);
                assert(a0[e] == z);
            }
        }
        law_ascending_is_canonical(a0, b0);
        assert(a =~= a0.push(x));
        assert(b =~= b0.push(y));
    }
}

} // verus!
