//! The order of names, and sorting by it.
use vstd::prelude::*;

use crate::text::{texts, to_chars};

verus! {

/// Whether `a` stands before `b` in the dictionary, or is `b`: the first characters that
/// differ decide by their code points, and a text stands before its extensions.
pub open spec fn le(a: Seq<char>, b: Seq<char>) -> bool
    decreases a.len(),
{
    if a.len() == 0 {
        true
    } else if b.len() == 0 {
        false
    } else if a[0] != b[0] {
        a[0] < b[0]
    } else {
        le(a.skip(1), b.skip(1))
    }
}

/// Every text is in order with itself.
pub proof fn law_order_reflexive(a: Seq<char>)
    ensures
        le(a, a),
    decreases a.len(),
{
    if a.len() > 0 {
        law_order_reflexive(a.skip(1));
    }
}

/// Any two texts are in order one way or the other.
pub proof fn law_order_total(a: Seq<char>, b: Seq<char>)
    ensures
        le(a, b) || le(b, a),
    decreases a.len(),
{
    if a.len() > 0 && b.len() > 0 && a[0] == b[0] {
        law_order_total(a.skip(1), b.skip(1));
    }
}

/// Two texts that are in order both ways are the same.
pub proof fn law_order_antisymmetric(a: Seq<char>, b: Seq<char>)
    requires
        le(a, b),
        le(b, a),
    ensures
        a == b,
    decreases a.len(),
{
    if a.len() > 0 && b.len() > 0 {
        law_order_antisymmetric(a.skip(1), b.skip(1));
        assert(a =~= seq![a[0]] + a.skip(1));
        assert(b =~= seq![b[0]] + b.skip(1));
    } else {
        assert(a =~= b);
    }
}

/// What is in order step by step is in order as a whole.
pub proof fn law_order_transitive(a: Seq<char>, b: Seq<char>, c: Seq<char>)
    requires
        le(a, b),
        le(b, c),
    ensures
        le(a, c),
    decreases a.len(),
{
    if a.len() > 0 && a[0] == b[0] && b[0] == c[0] {
        law_order_transitive(a.skip(1), b.skip(1), c.skip(1));
    }
}

/// Whether `a` and `b` are in order.
pub fn in_order(a: &str, b: &str) -> (r: bool)
    ensures
        r == le(a@, b@),
{
    let x = to_chars(a);
    let y = to_chars(b);
    let mut i: usize = 0;
    assert(x@.skip(0) =~= x@);
    assert(y@.skip(0) =~= y@);
    while i < x.len()
        invariant
            i <= x@.len(),
            i <= y@.len(),
            x@ == a@,
            y@ == b@,
            le(x@, y@) == le(x@.skip(i as int), y@.skip(i as int)),
        decreases x@.len() - i,
    {
        if i >= y.len() {
            return false;
        }
        if x[i] != y[i] {
            return x[i] < y[i];
        }
        assert(x@.skip(i as int).skip(1) =~= x@.skip(i + 1));
        assert(y@.skip(i as int).skip(1) =~= y@.skip(i + 1));
        i = i + 1;
    }
    true
}

/// `x` put into a sorted sequence, before the items that are not smaller.
pub open spec fn put<V>(x: V, s: Seq<V>, key: spec_fn(V) -> Seq<char>) -> Seq<V>
    decreases s.len(),
{
    if s.len() == 0 || le(key(x), key(s[0])) {
        seq![x] + s
    } else {
        seq![s[0]] + put(x, s.skip(1), key)
    }
}

/// The items of `s` sorted by their keys; items with the same key stay as they stood.
pub open spec fn sort<V>(s: Seq<V>, key: spec_fn(V) -> Seq<char>) -> Seq<V>
    decreases s.len(),
{
    if s.len() == 0 {
        s
    } else {
        put(s[0], sort(s.skip(1), key), key)
    }
}

/// Whether the keys of `s` are in order.
pub open spec fn sorted<V>(s: Seq<V>, key: spec_fn(V) -> Seq<char>) -> bool {
    forall|i: int, j: int|
        0 <= i <= j < s.len() ==> le(key(#[trigger] s[i]), key(#[trigger] s[j]))
}

proof fn lemma_put_at<V>(x: V, s: Seq<V>, key: spec_fn(V) -> Seq<char>, p: int)
    requires
        0 <= p <= s.len(),
        forall|i: int| 0 <= i < p ==> !le(key(x), key(#[trigger] s[i])),
        p < s.len() ==> le(key(x), key(s[p])),
    ensures
        put(x, s, key) == s.insert(p, x),
    decreases p,
{
    if p == 0 {
        assert(seq![x] + s =~= s.insert(0, x));
    } else {
        let t = s.skip(1);
        assert forall|i: int| 0 <= i < p - 1 implies !le(key(x), key(#[trigger] t[i])) by {
            assert(t[i] == s[i + 1]);
        }
        lemma_put_at(x, t, key, p - 1);
        assert(seq![s[0]] + t.insert(p - 1, x) =~= s.insert(p, x));
    }
}

proof fn lemma_put_sorted<V>(x: V, s: Seq<V>, key: spec_fn(V) -> Seq<char>)
    requires
        sorted(s, key),
    ensures
        sorted(put(x, s, key), key),
        put(x, s, key).len() == s.len() + 1,
        put(x, s, key)[0] == x || s.len() > 0 && put(x, s, key)[0] == s[0],
    decreases s.len(),
{
    let r = put(x, s, key);
    if s.len() == 0 || le(key(x), key(s[0])) {
        assert forall|i: int, j: int| 0 <= i <= j < r.len() implies le(
            key(#[trigger] r[i]),
            key(#[trigger] r[j]),
        ) by {
            law_order_reflexive(key(x));
            if i == 0 && j > 0 {
                assert(r[j] == s[j - 1]);
                assert(le(key(s[0]), key(s[j - 1])));
                law_order_transitive(key(x), key(s[0]), key(s[j - 1]));
            } else if i > 0 {
                assert(r[i] == s[i - 1] && r[j] == s[j - 1]);
            }
        }
    } else {
        let t = s.skip(1);
        assert forall|i: int, j: int| 0 <= i <= j < t.len() implies le(
            key(#[trigger] t[i]),
            key(#[trigger] t[j]),
        ) by {
            assert(t[i] == s[i + 1] && t[j] == s[j + 1]);
        }
        lemma_put_sorted(x, t, key);
        let u = put(x, t, key);
        law_order_total(key(x), key(s[0]));
        assert(le(key(s[0]), key(u[0]))) by {
            if u[0] != x {
                assert(t[0] == s[1]);
                assert(le(key(s[0]), key(s[1])));
            }
        }
        assert forall|i: int, j: int| 0 <= i <= j < r.len() implies le(
            key(#[trigger] r[i]),
            key(#[trigger] r[j]),
        ) by {
            law_order_reflexive(key(s[0]));
            if i == 0 && j > 0 {
                assert(r[j] == u[j - 1]);
                assert(le(key(u[0]), key(u[j - 1])));
                law_order_transitive(key(s[0]), key(u[0]), key(u[j - 1]));
            } else if i > 0 {
                assert(r[i] == u[i - 1] && r[j] == u[j - 1]);
            }
        }
    }
}

/// Sorting puts the keys in order.
pub proof fn law_sort_sorts<V>(s: Seq<V>, key: spec_fn(V) -> Seq<char>)
    ensures
        sorted(sort(s, key), key),
        sort(s, key).len() == s.len(),
    decreases s.len(),
{
    if s.len() > 0 {
        law_sort_sorts(s.skip(1), key);
        lemma_put_sorted(s[0], sort(s.skip(1), key), key);
    }
}

proof fn lemma_put_members<V>(x: V, s: Seq<V>, key: spec_fn(V) -> Seq<char>)
    ensures
        put(x, s, key).to_multiset() == s.to_multiset().insert(x),
    decreases s.len(),
{
    broadcast use vstd::seq_lib::group_to_multiset_ensures;

    if s.len() == 0 || le(key(x), key(s[0])) {
        assert(seq![x] + s =~= s.insert(0, x));
    } else {
        let t = s.skip(1);
        lemma_put_members(x, t, key);
        assert(s =~= t.insert(0, s[0]));
        assert(seq![s[0]] + put(x, t, key) =~= put(x, t, key).insert(0, s[0]));
        assert(t.to_multiset().insert(x).insert(s[0]) =~= t.to_multiset().insert(s[0]).insert(x));
    }
}

/// Sorting keeps every item as often as it was there.
pub proof fn law_sort_keeps_items<V>(s: Seq<V>, key: spec_fn(V) -> Seq<char>)
    ensures
        sort(s, key).to_multiset() == s.to_multiset(),
    decreases s.len(),
{
    broadcast use vstd::seq_lib::group_to_multiset_ensures;

    if s.len() > 0 {
        law_sort_keeps_items(s.skip(1), key);
        lemma_put_members(s[0], sort(s.skip(1), key), key);
        assert(s =~= s.skip(1).insert(0, s[0]));
    }
}

/// The test whether the key of an item is `k`.
pub open spec fn has_key<V>(key: spec_fn(V) -> Seq<char>, k: Seq<char>) -> spec_fn(V) -> bool {
    |v: V| key(v) == k
}

/// The items whose key is `k`.
pub open spec fn with_key<V>(s: Seq<V>, key: spec_fn(V) -> Seq<char>, k: Seq<char>) -> Seq<V> {
    s.filter(has_key(key, k))
}

proof fn lemma_with_key_front<V>(x: V, s: Seq<V>, key: spec_fn(V) -> Seq<char>, k: Seq<char>)
    ensures
        with_key(seq![x] + s, key, k) == if key(x) == k {
            seq![x] + with_key(s, key, k)
        } else {
            with_key(s, key, k)
        },
{
    lemma_filter_front(x, s, has_key(key, k));
}

proof fn lemma_put_stable<V>(x: V, s: Seq<V>, key: spec_fn(V) -> Seq<char>, k: Seq<char>)
    ensures
        with_key(put(x, s, key), key, k) == with_key(seq![x] + s, key, k),
    decreases s.len(),
{
    if s.len() > 0 && !le(key(x), key(s[0])) {
        let t = s.skip(1);
        law_order_reflexive(key(x));
        assert(key(x) != key(s[0]));
        lemma_put_stable(x, t, key, k);
        lemma_with_key_front(s[0], put(x, t, key), key, k);
        lemma_with_key_front(x, t, key, k);
        lemma_with_key_front(x, s, key, k);
        lemma_with_key_front(s[0], t, key, k);
        assert(s =~= seq![s[0]] + t);
    }
}

/// Sorting is stable: the items with one key stand in the order in which they stood.
pub proof fn law_sort_stable<V>(s: Seq<V>, key: spec_fn(V) -> Seq<char>, k: Seq<char>)
    ensures
        with_key(sort(s, key), key, k) == with_key(s, key, k),
    decreases s.len(),
{
    if s.len() > 0 {
        let t = s.skip(1);
        law_sort_stable(t, key, k);
        lemma_put_stable(s[0], sort(t, key), key, k);
        lemma_with_key_front(s[0], sort(t, key), key, k);
        lemma_with_key_front(s[0], t, key, k);
        assert(s =~= seq![s[0]] + t);
    }
}

proof fn lemma_filter_front<V>(x: V, s: Seq<V>, test: spec_fn(V) -> bool)
    ensures
        (seq![x] + s).filter(test) == if test(x) {
            seq![x] + s.filter(test)
        } else {
            s.filter(test)
        },
{
    reveal_with_fuel(Seq::filter, 2);
    Seq::filter_distributes_over_add(seq![x], s, test);
    assert(seq![x].drop_last() =~= Seq::empty());
    if test(x) {
        assert(seq![x].filter(test) =~= seq![x]);
    } else {
        assert(seq![x].filter(test) =~= Seq::empty());
        assert(Seq::empty() + s.filter(test) =~= s.filter(test));
    }
}

proof fn lemma_put_filter<V>(
    x: V,
    s: Seq<V>,
    key: spec_fn(V) -> Seq<char>,
    test: spec_fn(V) -> bool,
)
    requires
        sorted(s, key),
    ensures
        put(x, s, key).filter(test) == if test(x) {
            put(x, s.filter(test), key)
        } else {
            s.filter(test)
        },
    decreases s.len(),
{
    let kept = s.filter(test);
    if s.len() == 0 || le(key(x), key(s[0])) {
        lemma_filter_front(x, s, test);
        if kept.len() > 0 {
            assert(kept.contains(kept[0]));
            s.lemma_filter_contains_rev(test, kept[0]);
            let k = choose|k: int| 0 <= k < s.len() && s[k] == kept[0];
            assert(le(key(s[0]), key(s[k])));
            law_order_transitive(key(x), key(s[0]), key(s[k]));
        }
    } else {
        let t = s.skip(1);
        assert forall|i: int, j: int| 0 <= i <= j < t.len() implies le(
            key(#[trigger] t[i]),
            key(#[trigger] t[j]),
        ) by {
            assert(t[i] == s[i + 1] && t[j] == s[j + 1]);
        }
        lemma_put_filter(x, t, key, test);
        lemma_filter_front(s[0], put(x, t, key), test);
        lemma_filter_front(s[0], t, test);
        assert(s =~= seq![s[0]] + t);
        if test(s[0]) {
            assert(kept.skip(1) =~= t.filter(test));
        }
    }
}

/// Sorting and picking out items can change places.
pub proof fn lemma_sort_filter<V>(
    s: Seq<V>,
    key: spec_fn(V) -> Seq<char>,
    test: spec_fn(V) -> bool,
)
    ensures
        sort(s.filter(test), key) == sort(s, key).filter(test),
    decreases s.len(),
{
    reveal(Seq::filter);
    if s.len() > 0 {
        let t = s.skip(1);
        lemma_sort_filter(t, key, test);
        law_sort_sorts(t, key);
        lemma_put_filter(s[0], sort(t, key), key, test);
        lemma_filter_front(s[0], t, test);
        assert(s =~= seq![s[0]] + t);
        if test(s[0]) {
            assert(s.filter(test).skip(1) =~= t.filter(test));
        }
    }
}

/// An item that is ordered by a name.
pub trait Named: View {
    /// The name by which an item is ordered.
    spec fn key(v: Self::V) -> Seq<char>;

    /// The name by which the item is ordered.
    fn name(&self) -> (r: &str)
        ensures
            r@ == Self::key(self@),
    ;
}

impl Named for String {
    open spec fn key(v: Seq<char>) -> Seq<char> {
        v
    }

    fn name(&self) -> (r: &str) {
        self.as_str()
    }
}

impl Named for (String, bool) {
    open spec fn key(v: (Seq<char>, bool)) -> Seq<char> {
        v.0
    }

    fn name(&self) -> (r: &str) {
        self.0.as_str()
    }
}

/// The views of the items.
pub open spec fn views<T: View>(v: Seq<T>) -> Seq<T::V> {
    Seq::new(v.len(), |i: int| v[i]@)
}

/// The name of an item, as a function.
pub open spec fn key_of<T: Named>() -> spec_fn(T::V) -> Seq<char> {
    |v: T::V| T::key(v)
}

/// Where `x` belongs in a sorted vector: before the items that are not smaller.
fn place<T: Named>(x: &T, items: &Vec<T>) -> (p: usize)
    requires
        sorted(views(items@), key_of::<T>()),
    ensures
        p <= items@.len(),
        forall|i: int| 0 <= i < p ==> !le(T::key(x@), T::key(#[trigger] views(items@)[i])),
        p < items@.len() ==> le(T::key(x@), T::key(views(items@)[p as int])),
{
    let mut low: usize = 0;
    let mut high: usize = items.len();
    let ghost all = views(items@);
    let ghost key = key_of::<T>();
    while low < high
        invariant
            low <= high <= items@.len(),
            all == views(items@),
            key == key_of::<T>(),
            sorted(all, key),
            forall|i: int| 0 <= i < low ==> !le(T::key(x@), T::key(#[trigger] all[i])),
            forall|i: int| high <= i < all.len() ==> le(T::key(x@), T::key(#[trigger] all[i])),
        decreases high - low,
    {
        let mid = low + (high - low) / 2;
        if in_order(x.name(), items[mid].name()) {
            assert forall|i: int| mid <= i < all.len() implies le(
                T::key(x@),
                T::key(#[trigger] all[i]),
            ) by {
                assert(le(key(all[mid as int]), key(all[i])));
                law_order_transitive(T::key(x@), T::key(all[mid as int]), T::key(all[i]));
            }
            high = mid;
        } else {
            assert forall|i: int| 0 <= i <= mid implies !le(
                T::key(x@),
                T::key(#[trigger] all[i]),
            ) by {
                assert(le(key(all[i]), key(all[mid as int])));
                if le(T::key(x@), T::key(all[i])) {
                    law_order_transitive(T::key(x@), T::key(all[i]), T::key(all[mid as int]));
                }
            }
            low = mid + 1;
        }
    }
    low
}

/// The items sorted by name; items with the same name stay as they stood.
pub fn sort_by_name<T: Named>(items: Vec<T>) -> (r: Vec<T>)
    ensures
        views(r@) == sort(views(items@), key_of::<T>()),
{
    let ghost all = views(items@);
    let ghost key = key_of::<T>();
    let mut rest = items;
    let mut out: Vec<T> = Vec::new();
    assert(all.skip(all.len() as int) =~= Seq::empty());
    assert(views(out@) =~= Seq::empty());
    while rest.len() > 0
        invariant
            key == key_of::<T>(),
            rest@.len() <= all.len(),
            views(rest@) == all.take(rest@.len() as int),
            views(out@) == sort(all.skip(rest@.len() as int), key),
        decreases rest@.len(),
    {
        let ghost n = rest@.len() as int;
        let ghost before = views(out@);
        let ghost old_rest = rest@;
        let x = rest.pop().unwrap();
        proof {
            assert(x@ == views(old_rest)[n - 1]);
            assert(x@ == all[n - 1]);
            assert(views(rest@) =~= all.take(n - 1));
            law_sort_sorts(all.skip(n), key);
            assert(all.skip(n - 1).skip(1) =~= all.skip(n));
        }
        let p = place(&x, &out);
        proof {
            lemma_put_at(x@, before, key, p as int);
        }
        let ghost y = x@;
        out.insert(p, x);
        assert(views(out@) =~= before.insert(p as int, y));
    }
    assert(all.skip(0) =~= all);
    out
}

/// The names in order.
pub open spec fn sort_names(names: Seq<Seq<char>>) -> Seq<Seq<char>> {
    sort(names, key_of::<String>())
}

/// The names in order.
pub fn sort_texts(names: Vec<String>) -> (r: Vec<String>)
    ensures
        texts(r@) == sort_names(texts(names@)),
{
    let ghost all = names@;
    let r = sort_by_name(names);
    assert(texts(all) =~= views(all));
    assert(texts(r@) =~= views(r@));
    r
}

/// The order is that of the dictionary: the first difference decides by code points, and a text
/// stands before what extends it.
pub proof fn law_first_difference_decides(
    start: Seq<char>,
    a: char,
    b: char,
    x: Seq<char>,
    y: Seq<char>,
)
    ensures
        a < b ==> le(start + seq![a] + x, start + seq![b] + y) && !le(
            start + seq![b] + y,
            start + seq![a] + x,
        ),
        le(start, start + x),
        x.len() > 0 ==> !le(start + x, start),
    decreases start.len(),
{
    let p = start + seq![a] + x;
    let q = start + seq![b] + y;
    if start.len() == 0 {
        assert(p[0] == a && q[0] == b);
    } else {
        let t = start.skip(1);
        law_first_difference_decides(t, a, b, x, y);
        assert(p.skip(1) =~= t + seq![a] + x);
        assert(q.skip(1) =~= t + seq![b] + y);
        assert((start + x).skip(1) =~= t + x);
    }
}

} // verus!
