//! Stable sorting.
use vstd::prelude::*;

verus! {

/// A type whose values are sorted by some key.
pub trait Keyed: Sized {
    /// The key of `self` is not greater than that of `other`.
    spec fn le(&self, other: &Self) -> bool;

    proof fn total(a: &Self, b: &Self)
        ensures
            a.le(b) || b.le(a),
    ;

    proof fn transitive(a: &Self, b: &Self, c: &Self)
        requires
            a.le(b),
            b.le(c),
        ensures
            a.le(c),
    ;

    fn not_after(&self, other: &Self) -> (r: bool)
        ensures
            r == self.le(other),
    ;
}

/// `x` put into `s` before the first element that may follow it.
pub open spec fn insert_by<V>(x: V, s: Seq<V>, le: spec_fn(V, V) -> bool) -> Seq<V>
    decreases s.len(),
{
    if s.len() == 0 || le(x, s[0]) {
        seq![x] + s
    } else {
        seq![s[0]] + insert_by(x, s.skip(1), le)
    }
}

/// The elements of `s` in the order `le`; equal ones keep their order.
pub open spec fn sorted_by<V>(s: Seq<V>, le: spec_fn(V, V) -> bool) -> Seq<V>
    decreases s.len(),
{
    if s.len() == 0 {
        seq![]
    } else {
        insert_by(s[0], sorted_by(s.skip(1), le), le)
    }
}

/// The order of the keys.
pub open spec fn key_order<T: Keyed>() -> spec_fn(T, T) -> bool {
    |a: T, b: T| a.le(&b)
}

/// The elements of `s` by their keys; those with equal keys keep their order.
pub open spec fn sorted<T: Keyed>(s: Seq<T>) -> Seq<T> {
    sorted_by(s, key_order::<T>())
}

proof fn lemma_insert_at<V>(x: V, s: Seq<V>, i: int, le: spec_fn(V, V) -> bool)
    requires
        0 <= i <= s.len(),
        forall|j: int| #![trigger s[j]] 0 <= j < i ==> !le(x, s[j]),
        i < s.len() ==> le(x, s[i]),
    ensures
        insert_by(x, s, le) == s.insert(i, x),
    decreases s.len(),
{
    if i == 0 {
        assert(seq![x] + s =~= s.insert(0, x));
    } else {
        let t = s.skip(1);
        assert(!le(x, s[0]));
        assert forall|j: int| #![trigger t[j]] 0 <= j < i - 1 implies !le(x, t[j]) by {
            assert(t[j] == s[j + 1]);
        }
        lemma_insert_at(x, t, i - 1, le);
        assert(seq![s[0]] + t.insert(i - 1, x) =~= s.insert(i, x));
    }
}

pub fn sort<T: Keyed>(v: Vec<T>) -> (r: Vec<T>)
    ensures
        r@ == sorted(v@),
{
    let ghost all = v@;
    let mut rest = v;
    let mut out: Vec<T> = Vec::new();
    assert(all.take(all.len() as int) =~= all);
    assert(all.skip(all.len() as int) =~= seq![]);
    loop
        invariant
            rest@.len() <= all.len(),
            rest@ == all.take(rest@.len() as int),
            out@ == sorted_by(all.skip(rest@.len() as int), key_order::<T>()),
        ensures
            out@ == sorted_by(all, key_order::<T>()),
        decreases rest@.len(),
    {
        let ghost n = rest@.len() as int;
        match rest.pop() {
            None => {
                assert(all.skip(0) =~= all);
                break;
            },
            Some(x) => {
                proof {
                    assert(x == all[n - 1]);
                    assert(rest@ =~= all.take(n - 1));
                    assert(all.skip(n - 1).skip(1) =~= all.skip(n));
                }
                let mut i: usize = 0;
                while i < out.len() && !x.not_after(&out[i])
                    invariant
                        i <= out@.len(),
                        forall|j: int| #![trigger out@[j]] 0 <= j < i ==> !x.le(&out@[j]),
                    decreases out@.len() - i,
                {
                    i += 1;
                }
                proof {
                    lemma_insert_at(x, out@, i as int, key_order::<T>());
                }
                out.insert(i, x);
            },
        }
    }
    out
}

/// Any two elements can be ordered, and orders chain.
pub open spec fn is_order<V>(le: spec_fn(V, V) -> bool) -> bool {
    &&& forall|a: V, b: V| #[trigger] le(a, b) || le(b, a)
    &&& forall|a: V, b: V, c: V| #[trigger] le(a, b) && #[trigger] le(b, c) ==> le(a, c)
}

/// No element comes before one that is smaller.
pub open spec fn ordered_by<V>(s: Seq<V>, le: spec_fn(V, V) -> bool) -> bool {
    forall|i: int, j: int| #![trigger s[i], s[j]] 0 <= i < j < s.len() ==> le(s[i], s[j])
}

/// No element comes before one with a smaller key.
pub open spec fn ordered<T: Keyed>(s: Seq<T>) -> bool {
    forall|i: int, j: int| #![trigger s[i], s[j]] 0 <= i < j < s.len() ==> s[i].le(&s[j])
}

proof fn lemma_insert<V>(x: V, s: Seq<V>, le: spec_fn(V, V) -> bool)
    requires
        ordered_by(s, le),
        is_order(le),
    ensures
        ordered_by(insert_by(x, s, le), le),
        insert_by(x, s, le).to_multiset() == s.to_multiset().insert(x),
        insert_by(x, s, le).len() == s.len() + 1,
        forall|i: int|
            0 <= i < insert_by(x, s, le).len() ==> #[trigger] insert_by(x, s, le)[i] == x
                || s.contains(insert_by(x, s, le)[i]),
    decreases s.len(),
{
    broadcast use vstd::seq_lib::group_to_multiset_ensures;

    let r = insert_by(x, s, le);
    if s.len() == 0 || le(x, s[0]) {
        assert forall|i: int, j: int| #![trigger r[i], r[j]] 0 <= i < j < r.len() implies le(
            r[i],
            r[j],
        ) by {
            if i == 0 {
                if j > 1 {
                    assert(le(s[0], s[j - 1]));
                }
            } else {
                assert(le(s[i - 1], s[j - 1]));
            }
        }
        assert(r =~= s.insert(0, x));
        vstd::seq_lib::to_multiset_insert(s, 0, x);
    } else {
        let t = s.skip(1);
        assert(ordered_by(t, le));
        lemma_insert(x, t, le);
        let u = insert_by(x, t, le);
        assert(le(s[0], x));
        assert forall|i: int, j: int| #![trigger r[i], r[j]] 0 <= i < j < r.len() implies le(
            r[i],
            r[j],
        ) by {
            if i == 0 {
                assert(r[j] == u[j - 1]);
                if u[j - 1] != x {
                    let k = t.index_of(u[j - 1]);
                    assert(t[k] == s[k + 1]);
                    assert(le(s[0], s[k + 1]));
                }
            } else {
                assert(le(u[i - 1], u[j - 1]));
            }
        }
        assert forall|i: int| 0 <= i < r.len() implies #[trigger] r[i] == x || s.contains(r[i]) by {
            if i > 0 {
                assert(r[i] == u[i - 1]);
                if u[i - 1] != x {
                    let k = t.index_of(u[i - 1]);
                    assert(s[k + 1] == r[i]);
                }
            } else {
                assert(s[0] == r[0]);
            }
        }
        assert(s =~= t.insert(0, s[0]));
        assert(r =~= u.insert(0, s[0]));
        vstd::seq_lib::to_multiset_insert(t, 0, s[0]);
        vstd::seq_lib::to_multiset_insert(u, 0, s[0]);
        assert(t.to_multiset().insert(x).insert(s[0]) =~= t.to_multiset().insert(s[0]).insert(x));
    }
}

/// Sorting rearranges the elements, and puts them in order.
pub proof fn sorting_orders<V>(s: Seq<V>, le: spec_fn(V, V) -> bool)
    requires
        is_order(le),
    ensures
        ordered_by(sorted_by(s, le), le),
        sorted_by(s, le).to_multiset() == s.to_multiset(),
        sorted_by(s, le).len() == s.len(),
    decreases s.len(),
{
    if s.len() > 0 {
        let t = s.skip(1);
        sorting_orders(t, le);
        lemma_insert(s[0], sorted_by(t, le), le);
        vstd::seq_lib::to_multiset_insert(t, 0, s[0]);
        assert(t.insert(0, s[0]) =~= s);
    } else {
        assert(s =~= sorted_by(s, le));
    }
}

/// The keys of a type are ordered.
pub proof fn keys_are_ordered<T: Keyed>()
    ensures
        is_order(key_order::<T>()),
{
    let le = key_order::<T>();
    assert forall|a: T, b: T| #[trigger] le(a, b) || le(b, a) by {
        T::total(&a, &b);
    }
    assert forall|a: T, b: T, c: T| #[trigger] le(a, b) && #[trigger] le(b, c) implies le(a, c) by {
        T::transitive(&a, &b, &c);
    }
}

/// Sorting by keys rearranges the elements, and puts them in order.
pub proof fn sorted_is_an_ordered_permutation<T: Keyed>(s: Seq<T>)
    ensures
        ordered(sorted(s)),
        sorted(s).to_multiset() == s.to_multiset(),
        sorted(s).len() == s.len(),
{
    let le = key_order::<T>();
    keys_are_ordered::<T>();
    sorting_orders(s, le);
    let r = sorted(s);
    assert forall|i: int, j: int| #![trigger r[i], r[j]] 0 <= i < j < r.len() implies r[i].le(
        &r[j],
    ) by {
        assert(le(r[i], r[j]));
    }
}

/// Sorting keeps a sequence that is in order as it is.
pub proof fn sorting_keeps_an_ordered_sequence<T: Keyed>(s: Seq<T>)
    requires
        ordered(s),
    ensures
        sorted(s) == s,
    decreases s.len(),
{
    if s.len() > 0 {
        let t = s.skip(1);
        assert(ordered(t));
        sorting_keeps_an_ordered_sequence(t);
        if t.len() > 0 {
            assert(s[0].le(&s[1]));
        }
        assert(seq![s[0]] + t =~= s);
    }
}

/// What stands at two places of a rearranged sequence stands at two places of the
/// sequence.
pub proof fn lemma_rearranged<V>(a: Seq<V>, b: Seq<V>, i: int, j: int) -> (places: (int, int))
    requires
        a.to_multiset() == b.to_multiset(),
        0 <= i < b.len(),
        0 <= j < b.len(),
        i != j,
    ensures
        0 <= places.0 < a.len(),
        0 <= places.1 < a.len(),
        places.0 != places.1,
        a[places.0] == b[i],
        a[places.1] == b[j],
{
    broadcast use vstd::multiset::group_multiset_axioms;
    broadcast use vstd::seq_lib::group_to_multiset_ensures;

    assert(b.contains(b[i]) && b.contains(b[j]));
    assert(b.to_multiset().count(b[i]) > 0 && b.to_multiset().count(b[j]) > 0);
    assert(a.contains(b[i]) && a.contains(b[j]));
    let p = a.index_of(b[i]);
    if b[i] != b[j] {
        (p, a.index_of(b[j]))
    } else {
        let other = b.remove(j);
        assert(other[if i < j { i } else { i - 1 }] == b[i]);
        assert(other.to_multiset().count(b[i]) > 0);
        let rest = a.remove(p);
        assert(rest.to_multiset().count(b[i]) > 0);
        let q = rest.index_of(b[i]);
        assert(rest[q] == a[if q < p { q } else { q + 1 }]);
        (p, if q < p { q } else { q + 1 })
    }
}

/// No two elements have the same key.
pub open spec fn different_keys<T: Keyed>(s: Seq<T>) -> bool {
    forall|i: int, j: int|
        #![trigger s[i], s[j]]
        0 <= i < j < s.len() ==> !(s[i].le(&s[j]) && s[j].le(&s[i]))
}

proof fn lemma_ordered_once<T: Keyed>(a: Seq<T>, b: Seq<T>)
    requires
        ordered(a),
        ordered(b),
        different_keys(a),
        a.to_multiset() == b.to_multiset(),
    ensures
        a == b,
    decreases a.len(),
{
    broadcast use vstd::multiset::group_multiset_axioms;
    broadcast use vstd::seq_lib::group_to_multiset_ensures;

    assert(a.len() == a.to_multiset().len() && b.len() == b.to_multiset().len());
    if a.len() > 0 {
        assert(a.contains(a[0]) && b.contains(b[0]));
        assert(a.to_multiset().count(a[0]) > 0 && b.to_multiset().count(b[0]) > 0);
        let k = a.index_of(b[0]);
        let i = b.index_of(a[0]);
        assert(a[k] == b[0] && b[i] == a[0]);
        if k > 0 {
            assert(a[0].le(&a[k]));
            assert(i > 0);
            assert(b[0].le(&b[i]));
        }
        assert(a[0] == b[0]);
        let t = a.remove(0);
        let u = b.remove(0);
        assert forall|i: int, j: int| #![trigger t[i], t[j]] 0 <= i < j < t.len() implies t[i].le(
            &t[j],
        ) && !(t[i].le(&t[j]) && t[j].le(&t[i])) by {
            assert(t[i] == a[i + 1] && t[j] == a[j + 1]);
        }
        assert forall|i: int, j: int| #![trigger u[i], u[j]] 0 <= i < j < u.len() implies u[i].le(
            &u[j],
        ) by {
            assert(u[i] == b[i + 1] && u[j] == b[j + 1]);
        }
        lemma_ordered_once(t, u);
        assert(a =~= t.insert(0, a[0]));
        assert(b =~= u.insert(0, b[0]));
    } else {
        assert(a =~= b);
    }
}

/// Where no two keys are the same, the order that the elements had does not matter.
pub proof fn sorting_forgets_the_order<T: Keyed>(a: Seq<T>, b: Seq<T>)
    requires
        a.to_multiset() == b.to_multiset(),
        different_keys(a),
    ensures
        sorted(a) == sorted(b),
{
    let r = sorted(a);
    sorted_is_an_ordered_permutation(a);
    sorted_is_an_ordered_permutation(b);
    assert forall|i: int, j: int| #![trigger r[i], r[j]] 0 <= i < j < r.len() implies !(r[i].le(
        &r[j],
    ) && r[j].le(&r[i])) by {
        let (p, q) = lemma_rearranged(a, r, i, j);
        assert(a[p] == r[i] && a[q] == r[j]);
    }
    lemma_ordered_once(r, sorted(b));
}

/// Sorting values sorts what they stand for.
pub proof fn sorting_sorts_views<T, V>(
    s: Seq<T>,
    keyed: spec_fn(T, T) -> bool,
    view: spec_fn(T) -> V,
    le: spec_fn(V, V) -> bool,
)
    requires
        forall|i: int, j: int|
            #![trigger s[i], s[j]]
            0 <= i < s.len() && 0 <= j < s.len() ==> keyed(s[i], s[j]) == le(view(s[i]), view(s[j])),
    ensures
        sorted_by(s, keyed).map_values(view) == sorted_by(s.map_values(view), le),
        forall|x: T| #[trigger] sorted_by(s, keyed).contains(x) ==> s.contains(x),
    decreases s.len(),
{
    let v = s.map_values(view);
    if s.len() == 0 {
        assert(sorted_by(s, keyed).map_values(view) =~= seq![]);
    } else {
        let t = s.skip(1);
        assert forall|i: int, j: int|
            #![trigger t[i], t[j]]
            0 <= i < t.len() && 0 <= j < t.len() implies keyed(t[i], t[j]) == le(view(t[i]), view(t[j])) by {
            assert(t[i] == s[i + 1] && t[j] == s[j + 1]);
        }
        sorting_sorts_views(t, keyed, view, le);
        assert(t.map_values(view) =~= v.skip(1));
        let u = sorted_by(t, keyed);
        assert forall|i: int| 0 <= i < u.len() implies #[trigger] keyed(s[0], u[i]) == le(
            view(s[0]),
            view(u[i]),
        ) by {
            assert(u.contains(u[i]));
            let k = t.index_of(u[i]);
            assert(s[k + 1] == u[i]);
            assert(s[0] == s[0]);
        }
        lemma_insert_views(s[0], u, keyed, view, le);
        assert forall|x: T| #[trigger] sorted_by(s, keyed).contains(x) implies s.contains(x) by {
            if x != s[0] {
                assert(u.contains(x));
                let k = t.index_of(x);
                assert(s[k + 1] == x);
            } else {
                assert(s[0] == x);
            }
        }
    }
}

proof fn lemma_insert_views<T, V>(
    x: T,
    s: Seq<T>,
    keyed: spec_fn(T, T) -> bool,
    view: spec_fn(T) -> V,
    le: spec_fn(V, V) -> bool,
)
    requires
        forall|i: int| 0 <= i < s.len() ==> #[trigger] keyed(x, s[i]) == le(view(x), view(s[i])),
    ensures
        insert_by(x, s, keyed).map_values(view) == insert_by(
            view(x),
            s.map_values(view),
            le,
        ),
        forall|y: T| #[trigger]
            insert_by(x, s, keyed).contains(y) ==> y == x || s.contains(y),
    decreases s.len(),
{
    let v = s.map_values(view);
    let r = insert_by(x, s, keyed);
    if s.len() > 0 {
        assert(keyed(x, s[0]) == le(view(x), view(s[0])));
    }
    if s.len() == 0 || keyed(x, s[0]) {
        assert((seq![x] + s).map_values(view) =~= seq![view(x)] + v);
        assert forall|y: T| #[trigger] r.contains(y) implies y == x || s.contains(y) by {
            let k = r.index_of(y);
            if k > 0 {
                assert(s[k - 1] == y);
            }
        }
    } else {
        let t = s.skip(1);
        assert forall|i: int| 0 <= i < t.len() implies #[trigger] keyed(x, t[i]) == le(
            view(x),
            view(t[i]),
        ) by {
            assert(t[i] == s[i + 1]);
            assert(keyed(x, s[i + 1]) == le(view(x), view(s[i + 1])));
        }
        lemma_insert_views(x, t, keyed, view, le);
        assert(t.map_values(view) =~= v.skip(1));
        let u = insert_by(x, t, keyed);
        assert((seq![s[0]] + u).map_values(view) =~= seq![v[0]] + u.map_values(view));
        assert forall|y: T| #[trigger] r.contains(y) implies y == x || s.contains(y) by {
            let k = r.index_of(y);
            if k > 0 {
                assert(u[k - 1] == y);
                assert(u.contains(y));
                if y != x {
                    let m = t.index_of(y);
                    assert(s[m + 1] == y);
                }
            } else {
                assert(s[0] == y);
            }
        }
    }
}

// ---------------------------------------------------------------------------
// The order of texts
// ---------------------------------------------------------------------------

/// Lexicographic order by character.
pub open spec fn text_le(a: Seq<char>, b: Seq<char>) -> bool
    decreases a.len(),
{
    if a.len() == 0 {
        true
    } else if b.len() == 0 {
        false
    } else if a[0] != b[0] {
        a[0] < b[0]
    } else {
        text_le(a.skip(1), b.skip(1))
    }
}

pub proof fn text_le_total(a: Seq<char>, b: Seq<char>)
    ensures
        text_le(a, b) || text_le(b, a),
        text_le(a, b) && text_le(b, a) ==> a == b,
    decreases a.len(),
{
    if a.len() > 0 && b.len() > 0 && a[0] == b[0] {
        text_le_total(a.skip(1), b.skip(1));
        if a.skip(1) == b.skip(1) {
            assert(a =~= seq![a[0]] + a.skip(1));
            assert(b =~= seq![b[0]] + b.skip(1));
        }
    } else if a.len() == 0 && b.len() == 0 {
        assert(a =~= b);
    }
}

pub proof fn text_le_transitive(a: Seq<char>, b: Seq<char>, c: Seq<char>)
    requires
        text_le(a, b),
        text_le(b, c),
    ensures
        text_le(a, c),
    decreases a.len(),
{
    if a.len() > 0 && a[0] == b[0] && b[0] == c[0] {
        text_le_transitive(a.skip(1), b.skip(1), c.skip(1));
    }
}

pub fn text_not_after(a: &[char], b: &[char]) -> (r: bool)
    ensures
        r == text_le(a@, b@),
{
    let mut i: usize = 0;
    assert(a@.skip(0) =~= a@);
    assert(b@.skip(0) =~= b@);
    loop
        invariant
            i <= a@.len(),
            i <= b@.len(),
            text_le(a@, b@) == text_le(a@.skip(i as int), b@.skip(i as int)),
        decreases a@.len() - i,
    {
        if i == a.len() {
            return true;
        }
        if i == b.len() {
            return false;
        }
        assert(a@.skip(i as int)[0] == a@[i as int]);
        assert(b@.skip(i as int)[0] == b@[i as int]);
        if a[i] != b[i] {
            return a[i] < b[i];
        }
        assert(a@.skip(i as int).skip(1) =~= a@.skip(i + 1));
        assert(b@.skip(i as int).skip(1) =~= b@.skip(i + 1));
        i += 1;
    }
}

} // verus!
