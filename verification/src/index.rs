//! An index ordered by key bytes, so that the keys that share a prefix stand
//! next to each other.
use vstd::prelude::*;

use crate::types;
use crate::types::{same_bytes, Key};

verus! {

/// Whether `a` and `b` agree up to `n`, where `a` ends or has the smaller byte.
pub open spec fn parts_at(a: Seq<u8>, b: Seq<u8>, n: int) -> bool {
    &&& 0 <= n <= a.len()
    &&& n < b.len()
    &&& forall|j: int| 0 <= j < n ==> a[j] == b[j]
    &&& n == a.len() || a[n] < b[n]
}

/// Lexicographic order of byte strings.
pub open spec fn below(a: Seq<u8>, b: Seq<u8>) -> bool {
    exists|n: int| #[trigger] parts_at(a, b, n)
}

pub(crate) proof fn lemma_below_irreflexive(a: Seq<u8>)
    ensures
        !below(a, a),
{
}

pub(crate) proof fn lemma_below_transitive(a: Seq<u8>, b: Seq<u8>, c: Seq<u8>)
    requires
        below(a, b),
        below(b, c),
    ensures
        below(a, c),
{
    let n = choose|n: int| #[trigger] parts_at(a, b, n);
    let m = choose|m: int| #[trigger] parts_at(b, c, m);
    assert(parts_at(a, c, if n < m { n } else { m }));
}

/// Whether `a` comes before `b`.
fn is_below(a: &[u8], b: &[u8]) -> (r: bool)
    ensures
        r == below(a@, b@),
        !r && a@ != b@ ==> below(b@, a@),
{
    let mut i: usize = 0;
    while i < a.len() && i < b.len() && a[i] == b[i]
        invariant
            i <= a@.len(),
            i <= b@.len(),
            forall|j: int| 0 <= j < i ==> a@[j] == b@[j],
        decreases a@.len() - i,
    {
        i = i + 1;
    }
    if i < b.len() && (i == a.len() || a[i] < b[i]) {
        assert(parts_at(a@, b@, i as int));
        true
    } else {
        proof {
            if below(a@, b@) {
                let n = choose|n: int| #[trigger] parts_at(a@, b@, n);
                assert(n < i || n == i || n > i);
            }
            if i == b@.len() && i == a@.len() {
                assert(a@ =~= b@);
            } else {
                assert(parts_at(b@, a@, i as int));
            }
        }
        false
    }
}

/// A key that starts with a prefix does not come before it.
proof fn lemma_prefix_first(k: Seq<u8>, prefix: Seq<u8>)
    requires
        types::starts_with(k, prefix),
    ensures
        !below(k, prefix),
{
    if below(k, prefix) {
        let n = choose|n: int| #[trigger] parts_at(k, prefix, n);
        assert(k.take(prefix.len() as int)[n] == prefix[n]);
    }
}

/// Keys are ordered by the first byte in which they differ, and one that another
/// one starts with comes first.
pub proof fn law_keys_are_ordered_by_their_first_difference(
    front: Seq<u8>,
    a: u8,
    x: Seq<u8>,
    b: u8,
    y: Seq<u8>,
)
    ensures
        below(front, front + seq![a] + x),
        !below(front + seq![a] + x, front),
        below(front + seq![a] + x, front + seq![b] + y) <==> a < b || a == b && below(x, y),
{
    let p = front + seq![a] + x;
    let q = front + seq![b] + y;
    let n = front.len() as int;
    assert(parts_at(front, p, n));
    if below(p, front) {
        let c = choose|c: int| #[trigger] parts_at(p, front, c);
        assert(p[c] == front[c]);
    }
    if a < b {
        assert(parts_at(p, q, n));
    }
    if a == b && below(x, y) {
        let c = choose|c: int| #[trigger] parts_at(x, y, c);
        assert forall|j: int| 0 <= j < n + 1 + c implies p[j] == q[j] by {
            if j > n {
                assert(x[j - n - 1] == y[j - n - 1]);
            }
        }
        assert(parts_at(p, q, n + 1 + c));
    }
    if below(p, q) {
        let c = choose|c: int| #[trigger] parts_at(p, q, c);
        if c > n {
            assert(p[n] == q[n]);
            assert forall|j: int| 0 <= j < c - n - 1 implies x[j] == y[j] by {
                assert(p[j + n + 1] == q[j + n + 1]);
            }
            assert(parts_at(x, y, c - n - 1));
        } else if c < n {
            assert(p[c] == q[c]);
        }
    }
}

/// Keys with one prefix are contiguous: a key between the prefix and a key
/// that starts with it starts with it too.
pub proof fn law_prefix_is_contiguous(prefix: Seq<u8>, k: Seq<u8>, m: Seq<u8>)
    requires
        !below(k, prefix),
        below(k, m),
        types::starts_with(m, prefix),
    ensures
        types::starts_with(k, prefix),
{
    let n = choose|n: int| #[trigger] parts_at(k, m, n);
    assert forall|j: int| 0 <= j < prefix.len() implies m[j] == prefix[j] by {
        assert(m.take(prefix.len() as int)[j] == prefix[j]);
    }
    if n < prefix.len() {
        assert(parts_at(k, prefix, n));
    }
    assert(k.take(prefix.len() as int) =~= prefix);
}

/// Entries in the order of their keys, each key once.
pub struct Index<V> {
    entries: Vec<(Key, V)>,
}

impl<V> View for Index<V> {
    type V = Map<Seq<u8>, V>;

    closed spec fn view(&self) -> Map<Seq<u8>, V> {
        entries_map(self.entries@)
    }
}

/// What a list of entries maps each key to.
spec fn entries_map<V>(entries: Seq<(Key, V)>) -> Map<Seq<u8>, V> {
    Map::new(
        |k: Seq<u8>| exists|i: int| 0 <= i < entries.len() && (#[trigger] entries[i]).0@ == k,
        |k: Seq<u8>|
            entries[choose|i: int| 0 <= i < entries.len() && (#[trigger] entries[i]).0@ == k].1,
    )
}

spec fn ordered<V>(entries: Seq<(Key, V)>) -> bool {
    forall|i: int, j: int|
        0 <= i < j < entries.len() ==> below((#[trigger] entries[i]).0@, (#[trigger] entries[j]).0@)
}

proof fn lemma_entry<V>(entries: Seq<(Key, V)>, i: int)
    requires
        ordered(entries),
        0 <= i < entries.len(),
    ensures
        entries_map(entries).contains_key(entries[i].0@),
        entries_map(entries)[entries[i].0@] == entries[i].1,
{
    let k = entries[i].0@;
    let c = choose|c: int| 0 <= c < entries.len() && (#[trigger] entries[c]).0@ == k;
    lemma_below_irreflexive(k);
    assert(c == i);
}

proof fn lemma_map_finite<V>(entries: Seq<(Key, V)>)
    ensures
        entries_map(entries).dom().finite(),
    decreases entries.len(),
{
    let dom = entries_map(entries).dom();
    if entries.len() == 0 {
        assert(dom =~= Set::empty());
    } else {
        let before = entries.drop_last();
        lemma_map_finite(before);
        let last = entries.last().0@;
        assert(dom =~= entries_map(before).dom().insert(last)) by {
            assert forall|k: Seq<u8>| dom.contains(k) implies #[trigger] entries_map(
                before,
            ).dom().insert(last).contains(k) by {
                let i = choose|i: int| 0 <= i < entries.len() && (#[trigger] entries[i]).0@ == k;
                if i < before.len() {
                    assert(before[i].0@ == k);
                }
            }
            assert forall|k: Seq<u8>| #[trigger] entries_map(before).dom().insert(last).contains(
                k,
            ) implies dom.contains(k) by {
                if k != last {
                    let i = choose|i: int|
                        0 <= i < before.len() && (#[trigger] before[i]).0@ == k;
                    assert(entries[i].0@ == k);
                } else {
                    assert(entries[entries.len() - 1].0@ == k);
                }
            }
        }
    }
}

impl<V> Index<V> {
    /// The keys, in order.
    pub closed spec fn keys(&self) -> Seq<Seq<u8>> {
        Seq::new(self.entries@.len(), |i: int| self.entries@[i].0@)
    }

    pub closed spec fn wf(&self) -> bool {
        ordered(self.entries@)
    }

    pub fn new() -> (r: Self)
        ensures
            r.wf(),
            r@ == Map::<Seq<u8>, V>::empty(),
    {
        let r = Index { entries: Vec::new() };
        assert(r@ =~= Map::<Seq<u8>, V>::empty());
        r
    }

    /// The keys of a well-formed index are distinct, in order, and those of its
    /// map.
    pub proof fn lemma_keys(&self)
        requires
            self.wf(),
        ensures
            self@.dom().finite(),
            forall|i: int| 0 <= i < self.keys().len() ==> self@.contains_key(#[trigger] self.keys()[i]),
            forall|i: int, j: int|
                0 <= i < j < self.keys().len() ==> below(
                    #[trigger] self.keys()[i],
                    #[trigger] self.keys()[j],
                ) && self.keys()[i] != self.keys()[j],
            forall|k: Seq<u8>| #[trigger]
                self@.contains_key(k) ==> exists|i: int|
                    0 <= i < self.keys().len() && #[trigger] self.keys()[i] == k,
    {
        lemma_map_finite(self.entries@);
        assert forall|i: int| 0 <= i < self.keys().len() implies self@.contains_key(
            #[trigger] self.keys()[i],
        ) by {
            lemma_entry(self.entries@, i);
        }
        assert forall|i: int, j: int| 0 <= i < j < self.keys().len() implies below(
            #[trigger] self.keys()[i],
            #[trigger] self.keys()[j],
        ) && self.keys()[i] != self.keys()[j] by {
            assert(self.entries@[i].0@ == self.keys()[i]);
            assert(self.entries@[j].0@ == self.keys()[j]);
            lemma_below_irreflexive(self.keys()[i]);
        }
        assert forall|k: Seq<u8>| #[trigger] self@.contains_key(k) implies exists|i: int|
            0 <= i < self.keys().len() && #[trigger] self.keys()[i] == k by {
            let i = choose|i: int|
                0 <= i < self.entries@.len() && (#[trigger] self.entries@[i]).0@ == k;
            assert(self.keys()[i] == k);
        }
    }

    pub fn len(&self) -> (r: usize)
        ensures
            r == self.keys().len(),
    {
        self.entries.len()
    }

    pub fn key_at(&self, i: usize) -> (r: &Key)
        requires
            i < self.keys().len(),
        ensures
            r@ == self.keys()[i as int],
    {
        &self.entries[i].0
    }

    pub fn at(&self, i: usize) -> (r: &V)
        requires
            self.wf(),
            i < self.keys().len(),
        ensures
            self@.contains_key(self.keys()[i as int]),
            *r == self@[self.keys()[i as int]],
    {
        proof {
            lemma_entry(self.entries@, i as int);
        }
        &self.entries[i].1
    }

    pub fn at_mut(&mut self, i: usize) -> (r: &mut V)
        requires
            old(self).wf(),
            i < old(self).keys().len(),
        ensures
            *r == old(self)@[old(self).keys()[i as int]],
            final(self).wf(),
            final(self).keys() == old(self).keys(),
            final(self)@ == old(self)@.insert(old(self).keys()[i as int], *final(r)),
    {
        proof {
            lemma_entry(self.entries@, i as int);
            lemma_update(self.entries@, i as int);
        }
        &mut self.entries[i].1
    }

    /// How many keys come before `key`.
    fn rank(&self, key: &[u8]) -> (r: usize)
        requires
            self.wf(),
        ensures
            r <= self.entries@.len(),
            forall|i: int| 0 <= i < r ==> below((#[trigger] self.entries@[i]).0@, key@),
            forall|i: int|
                r <= i < self.entries@.len() ==> !below((#[trigger] self.entries@[i]).0@, key@),
    {
        let mut lo: usize = 0;
        let mut hi: usize = self.entries.len();
        while lo < hi
            invariant
                self.wf(),
                lo <= hi <= self.entries@.len(),
                forall|i: int| 0 <= i < lo ==> below((#[trigger] self.entries@[i]).0@, key@),
                forall|i: int|
                    hi <= i < self.entries@.len() ==> !below((#[trigger] self.entries@[i]).0@, key@),
            decreases hi - lo,
        {
            let mid: usize = lo + (hi - lo) / 2;
            let k = &self.entries[mid].0;
            if is_below(k.as_bytes(), key) {
                proof {
                    assert forall|i: int| 0 <= i <= mid implies below(
                        (#[trigger] self.entries@[i]).0@,
                        key@,
                    ) by {
                        if i < mid {
                            lemma_below_transitive(
                                self.entries@[i].0@,
                                self.entries@[mid as int].0@,
                                key@,
                            );
                        }
                    }
                }
                lo = mid + 1;
            } else {
                proof {
                    assert forall|i: int| mid <= i < self.entries@.len() implies !below(
                        (#[trigger] self.entries@[i]).0@,
                        key@,
                    ) by {
                        if mid < i && below(self.entries@[i].0@, key@) {
                            lemma_below_transitive(
                                self.entries@[mid as int].0@,
                                self.entries@[i].0@,
                                key@,
                            );
                        }
                    }
                }
                hi = mid;
            }
        }
        lo
    }

    /// Where `key` stands, if it is there.
    pub fn find(&self, key: &Key) -> (r: Option<usize>)
        requires
            self.wf(),
        ensures
            match r {
                Some(i) => i < self.keys().len() && self.keys()[i as int] == key@
                    && self@.contains_key(key@),
                None => !self@.contains_key(key@),
            },
    {
        let bytes = key.as_bytes();
        let i = self.rank(bytes);
        if i < self.entries.len() && same_bytes(self.entries[i].0.as_bytes(), bytes) {
            proof {
                lemma_entry(self.entries@, i as int);
            }
            return Some(i);
        }
        proof {
            if self@.contains_key(key@) {
                let c = choose|c: int|
                    0 <= c < self.entries@.len() && (#[trigger] self.entries@[c]).0@ == key@;
                lemma_below_irreflexive(key@);
                assert(c >= i);
                assert(c != i);
                assert(below(self.entries@[i as int].0@, self.entries@[c].0@));
            }
        }
        None
    }

    /// Add an entry for a key that has none.
    pub fn insert(&mut self, key: Key, value: V)
        requires
            old(self).wf(),
            !old(self)@.contains_key(key@),
        ensures
            final(self).wf(),
            final(self)@ == old(self)@.insert(key@, value),
    {
        let ghost before = self.entries@;
        let ghost k = key@;
        let i = self.rank(key.as_bytes());
        assert forall|j: int| i <= j < before.len() implies below(k, (#[trigger] before[j]).0@) by {
            if before[j].0@ == k {
                lemma_entry(before, j);
            }
            lemma_above(before[j].0@, k);
        }
        self.entries.insert(i, (key, value));
        let ghost after = self.entries@;
        assert(after =~= before.insert(i as int, (key, value)));
        assert forall|a: int, b: int| 0 <= a < b < after.len() implies below(
            (#[trigger] after[a]).0@,
            (#[trigger] after[b]).0@,
        ) by {
            let a0 = if a <= i { a } else { a - 1 };
            let b0 = if b <= i { b } else { b - 1 };
            assert(a != i ==> after[a] == before[a0]);
            assert(b != i ==> after[b] == before[b0]);
        }
        proof {
            assert forall|x: Seq<u8>| #[trigger]
                entries_map(after).contains_key(x) <==> (x == k || entries_map(
                    before,
                ).contains_key(x)) by {
                if entries_map(after).contains_key(x) {
                    let c = choose|c: int|
                        0 <= c < after.len() && (#[trigger] after[c]).0@ == x;
                    if c < i {
                        assert(before[c].0@ == x);
                    } else if c > i {
                        assert(before[c - 1].0@ == x);
                    }
                }
                if entries_map(before).contains_key(x) {
                    let c = choose|c: int|
                        0 <= c < before.len() && (#[trigger] before[c]).0@ == x;
                    if c < i {
                        assert(after[c].0@ == x);
                    } else {
                        assert(after[c + 1].0@ == x);
                    }
                }
                assert(after[i as int].0@ == k);
            }
            assert forall|x: Seq<u8>| #[trigger]
                entries_map(after).contains_key(x) implies entries_map(after)[x] == entries_map(
                before,
            ).insert(k, value)[x] by {
                let c = choose|c: int| 0 <= c < after.len() && (#[trigger] after[c]).0@ == x;
                lemma_entry(after, c);
                if c < i {
                    lemma_entry(before, c);
                } else if c > i {
                    lemma_entry(before, c - 1);
                }
            }
            assert(self@ =~= old(self)@.insert(k, value));
        }
    }

    /// Take out the entry at `i`.
    pub fn remove_at(&mut self, i: usize) -> (r: V)
        requires
            old(self).wf(),
            i < old(self).keys().len(),
        ensures
            final(self).wf(),
            r == old(self)@[old(self).keys()[i as int]],
            final(self)@ == old(self)@.remove(old(self).keys()[i as int]),
            final(self).keys() == old(self).keys().remove(i as int),
    {
        let ghost before = self.entries@;
        let ghost k = self.keys()[i as int];
        proof {
            lemma_entry(before, i as int);
        }
        let (_, value) = self.entries.remove(i);
        let ghost after = self.entries@;
        proof {
            assert(after =~= before.remove(i as int));
            assert forall|a: int, b: int| 0 <= a < b < after.len() implies below(
                (#[trigger] after[a]).0@,
                (#[trigger] after[b]).0@,
            ) by {
                assert(after[a] == before[if a < i { a } else { a + 1 }]);
                assert(after[b] == before[if b < i { b } else { b + 1 }]);
            }
            assert forall|x: Seq<u8>| #[trigger]
                entries_map(after).contains_key(x) <==> (x != k && entries_map(
                    before,
                ).contains_key(x)) by {
                if entries_map(after).contains_key(x) {
                    let c = choose|c: int|
                        0 <= c < after.len() && (#[trigger] after[c]).0@ == x;
                    let c0 = if c < i { c } else { c + 1 };
                    assert(before[c0].0@ == x);
                    lemma_below_irreflexive(x);
                }
                if x != k && entries_map(before).contains_key(x) {
                    let c = choose|c: int|
                        0 <= c < before.len() && (#[trigger] before[c]).0@ == x;
                    let c0 = if c < i { c } else { c - 1 };
                    assert(after[c0].0@ == x);
                }
            }
            assert forall|x: Seq<u8>| #[trigger]
                entries_map(after).contains_key(x) implies entries_map(after)[x] == entries_map(
                before,
            )[x] by {
                let c = choose|c: int| 0 <= c < after.len() && (#[trigger] after[c]).0@ == x;
                lemma_entry(after, c);
                lemma_entry(before, if c < i { c } else { c + 1 });
            }
            assert(self@ =~= old(self)@.remove(k));
            assert(self.keys() =~= old(self).keys().remove(i as int));
        }
        value
    }

    /// The stretch of entries whose keys start with `prefix`: where it begins
    /// and how long it is.
    pub fn prefix_range(&self, prefix: &[u8]) -> (r: (usize, usize))
        requires
            self.wf(),
        ensures
            r.0 + r.1 <= self.keys().len(),
            forall|i: int|
                0 <= i < self.keys().len() ==> (types::starts_with(#[trigger] self.keys()[i], prefix@)
                    <==> r.0 <= i < r.0 + r.1),
    {
        let first = self.rank(prefix);
        let mut end: usize = first;
        while end < self.entries.len() && self.entries[end].0.starts_with(prefix)
            invariant
                self.wf(),
                first <= end <= self.entries@.len(),
                forall|i: int|
                    first <= i < end ==> types::starts_with((#[trigger] self.entries@[i]).0@, prefix@),
            decreases self.entries@.len() - end,
        {
            end = end + 1;
        }
        proof {
            assert forall|i: int| 0 <= i < self.keys().len() implies (types::starts_with(
                #[trigger] self.keys()[i],
                prefix@,
            ) <==> first <= i < end) by {
                let k = self.entries@[i].0@;
                if types::starts_with(k, prefix@) {
                    lemma_prefix_first(k, prefix@);
                    if end < i {
                        law_prefix_is_contiguous(
                            prefix@,
                            self.entries@[end as int].0@,
                            k,
                        );
                    }
                }
            }
        }
        (first, end - first)
    }
}

proof fn lemma_above(a: Seq<u8>, b: Seq<u8>)
    ensures
        below(a, b) || a == b || below(b, a),
    decreases a.len(),
{
    lemma_part(a, b, 0);
}

proof fn lemma_part(a: Seq<u8>, b: Seq<u8>, n: int)
    requires
        0 <= n <= a.len(),
        n <= b.len(),
        forall|j: int| 0 <= j < n ==> a[j] == b[j],
    ensures
        below(a, b) || a == b || below(b, a),
    decreases a.len() - n,
{
    if n == a.len() && n == b.len() {
        assert(a =~= b);
    } else if n == a.len() || n < b.len() && a[n] < b[n] {
        assert(parts_at(a, b, n));
    } else if n == b.len() || b[n] < a[n] {
        assert(parts_at(b, a, n));
    } else {
        lemma_part(a, b, n + 1);
    }
}

/// Changing the value of an entry changes the map at its key alone.
proof fn lemma_update<V>(entries: Seq<(Key, V)>, i: int)
    requires
        ordered(entries),
        0 <= i < entries.len(),
    ensures
        forall|v: V|
            #![trigger entries.update(i, (entries[i].0, v))]
            ordered(entries.update(i, (entries[i].0, v))) && entries_map(
                entries.update(i, (entries[i].0, v)),
            ) == entries_map(entries).insert(entries[i].0@, v),
{
    assert forall|v: V|
        #![trigger entries.update(i, (entries[i].0, v))]
        ordered(entries.update(i, (entries[i].0, v))) && entries_map(
            entries.update(i, (entries[i].0, v)),
        ) == entries_map(entries).insert(entries[i].0@, v) by {
        let after = entries.update(i, (entries[i].0, v));
        let k = entries[i].0@;
        assert forall|x: Seq<u8>| #[trigger]
            entries_map(after).contains_key(x) <==> entries_map(entries).contains_key(x) by {
            if entries_map(after).contains_key(x) {
                let c = choose|c: int| 0 <= c < after.len() && (#[trigger] after[c]).0@ == x;
                assert(entries[c].0@ == x);
            }
            if entries_map(entries).contains_key(x) {
                let c = choose|c: int| 0 <= c < entries.len() && (#[trigger] entries[c]).0@ == x;
                assert(after[c].0@ == x);
            }
        }
        lemma_entry(entries, i);
        assert forall|x: Seq<u8>| #[trigger]
            entries_map(after).contains_key(x) implies entries_map(after)[x] == entries_map(
            entries,
        ).insert(k, v)[x] by {
            let c = choose|c: int| 0 <= c < after.len() && (#[trigger] after[c]).0@ == x;
            lemma_entry(after, c);
            lemma_entry(entries, c);
            lemma_below_irreflexive(x);
        }
        assert(entries_map(after) =~= entries_map(entries).insert(k, v));
    }
}

} // verus!
