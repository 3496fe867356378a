//! The longest prefix that names have in common.
use vstd::prelude::*;
use vstd::slice::slice_subrange;
use vstd::string::*;
use vstd::utf8::*;

use crate::order::views;
use crate::text::{from_chars, starts_with, texts, to_chars};

verus! {

/// Whether every string starts with `p`.
pub open spec fn common(strings: Seq<Seq<char>>, p: Seq<char>) -> bool {
    forall|i: int| 0 <= i < strings.len() ==> p.is_prefix_of(#[trigger] strings[i])
}

/// Whether `p` is the longest text with which every string starts.
pub open spec fn is_longest_common(strings: Seq<Seq<char>>, p: Seq<char>) -> bool {
    &&& common(strings, p)
    &&& forall|q: Seq<char>| #[trigger] common(strings, q) ==> q.len() <= p.len()
}

/// The longest text with which every string starts; nothing for no strings.
pub open spec fn common_prefix(strings: Seq<Seq<char>>) -> Seq<char> {
    if strings.len() == 0 {
        Seq::empty()
    } else {
        choose|p: Seq<char>| is_longest_common(strings, p)
    }
}

/// A prefix of a prefix is a prefix.
pub proof fn lemma_prefix_trans(a: Seq<char>, b: Seq<char>, c: Seq<char>)
    requires
        a.is_prefix_of(b),
        b.is_prefix_of(c),
    ensures
        a.is_prefix_of(c),
{
    assert(a =~= c.subrange(0, a.len() as int)) by {
        assert forall|i: int| 0 <= i < a.len() implies a[i] == c.subrange(0, a.len() as int)[i] by {
            assert(a[i] == b.subrange(0, a.len() as int)[i]);
            assert(b[i] == c.subrange(0, b.len() as int)[i]);
        }
    }
}

/// There is only one longest common prefix.
proof fn lemma_common_prefix_is(strings: Seq<Seq<char>>, p: Seq<char>)
    requires
        strings.len() > 0,
        is_longest_common(strings, p),
    ensures
        common_prefix(strings) == p,
{
    let q = common_prefix(strings);
    assert(is_longest_common(strings, q));
    assert(common(strings, p) && common(strings, q));
    assert(p.len() == q.len());
    assert(p.is_prefix_of(strings[0]) && q.is_prefix_of(strings[0]));
    assert(p =~= q);
}

/// A place at which two of the strings differ, or one ends, bounds the common prefix.
proof fn lemma_common_bound(strings: Seq<Seq<char>>, k: int, n: int)
    requires
        0 <= k < strings.len(),
        0 <= n,
        n >= strings[0].len() || n >= strings[k].len() || strings[k][n] != strings[0][n],
    ensures
        forall|q: Seq<char>| #[trigger] common(strings, q) ==> q.len() <= n,
{
    assert forall|q: Seq<char>| #[trigger] common(strings, q) implies q.len() <= n by {
        assert(q.is_prefix_of(strings[0]) && q.is_prefix_of(strings[k]));
        if q.len() > n {
            assert(q[n] == strings[0].subrange(0, q.len() as int)[n]);
            assert(q[n] == strings[k].subrange(0, q.len() as int)[n]);
        }
    }
}

proof fn lemma_longest_from(strings: Seq<Seq<char>>, n: int)
    requires
        strings.len() > 0,
        0 <= n <= strings[0].len(),
        common(strings, strings[0].take(n)),
    ensures
        exists|p: Seq<char>| is_longest_common(strings, p),
    decreases strings[0].len() - n,
{
    let p = strings[0].take(n);
    if n < strings[0].len() && common(strings, strings[0].take(n + 1)) {
        lemma_longest_from(strings, n + 1);
    } else {
        assert forall|q: Seq<char>| #[trigger] common(strings, q) implies q.len() <= n by {
            assert(q.is_prefix_of(strings[0]));
            if q.len() > n {
                let r = strings[0].take(n + 1);
                assert forall|i: int| 0 <= i < strings.len() implies r.is_prefix_of(
                    #[trigger] strings[i],
                ) by {
                    assert(q.is_prefix_of(strings[i]));
                    assert(r =~= strings[i].subrange(0, n + 1)) by {
                        assert forall|j: int| 0 <= j < n + 1 implies r[j] == strings[i].subrange(
                            0,
                            n + 1,
                        )[j] by {
                            assert(q[j] == strings[0].subrange(0, q.len() as int)[j]);
                            assert(q[j] == strings[i].subrange(0, q.len() as int)[j]);
                        }
                    }
                }
            }
        }
        assert(is_longest_common(strings, p));
    }
}

/// The common prefix of strings is a prefix of each of them, and no longer text is.
pub proof fn law_common_prefix_is_longest(strings: Seq<Seq<char>>)
    requires
        strings.len() > 0,
    ensures
        is_longest_common(strings, common_prefix(strings)),
{
    let p = strings[0].take(0);
    assert forall|i: int| 0 <= i < strings.len() implies p.is_prefix_of(#[trigger] strings[i]) by {
        assert(p =~= strings[i].subrange(0, 0));
    }
    lemma_longest_from(strings, 0);
}

/// What all strings start with, their common prefix starts with too: completing a word to
/// the common prefix of its matches never takes back what was typed.
pub proof fn law_common_prefix_extends(strings: Seq<Seq<char>>, typed: Seq<char>)
    requires
        strings.len() > 0,
        common(strings, typed),
    ensures
        typed.is_prefix_of(common_prefix(strings)),
{
    law_common_prefix_is_longest(strings);
    let p = common_prefix(strings);
    assert(p.is_prefix_of(strings[0]) && typed.is_prefix_of(strings[0]));
    assert(typed.len() <= p.len());
    assert(typed =~= p.subrange(0, typed.len() as int));
}

/// Common prefixes combine: that of all strings is that of the common prefixes of two parts
/// of them.
pub proof fn law_common_prefixes_combine(a: Seq<Seq<char>>, b: Seq<Seq<char>>)
    requires
        a.len() > 0,
        b.len() > 0,
    ensures
        common_prefix(a + b) == common_prefix(seq![common_prefix(a), common_prefix(b)]),
{
    let pair = seq![common_prefix(a), common_prefix(b)];
    let p = common_prefix(pair);
    law_common_prefix_is_longest(a);
    law_common_prefix_is_longest(b);
    law_common_prefix_is_longest(pair);
    assert(p.is_prefix_of(pair[0]) && p.is_prefix_of(pair[1]));
    assert forall|i: int| 0 <= i < (a + b).len() implies p.is_prefix_of(#[trigger] (a + b)[i]) by {
        if i < a.len() {
            assert(pair[0].is_prefix_of(a[i]));
            lemma_prefix_trans(p, pair[0], a[i]);
        } else {
            assert(pair[1].is_prefix_of(b[i - a.len()]));
            lemma_prefix_trans(p, pair[1], b[i - a.len()]);
        }
    }
    assert forall|q: Seq<char>| #[trigger] common(a + b, q) implies q.len() <= p.len() by {
        assert forall|i: int| 0 <= i < a.len() implies q.is_prefix_of(#[trigger] a[i]) by {
            assert((a + b)[i] == a[i]);
        }
        assert forall|i: int| 0 <= i < b.len() implies q.is_prefix_of(#[trigger] b[i]) by {
            assert((a + b)[a.len() + i] == b[i]);
        }
        law_common_prefix_extends(a, q);
        law_common_prefix_extends(b, q);
        assert(common(pair, q));
    }
    lemma_common_prefix_is(a + b, p);
}

/// Whether the common prefix is defined: not for several strings that all start with the
/// first of them, where this one holds a character outside ASCII.
pub open spec fn has_common_prefix(strings: Seq<Seq<char>>) -> bool {
    ||| strings.len() < 2
    ||| is_ascii_chars(strings[0])
    ||| !common(strings, strings[0])
}

/// Whether every string starts with the first one.
fn first_is_common(strings: &[String]) -> (r: bool)
    requires
        strings@.len() > 0,
    ensures
        r == common(texts(strings@), texts(strings@)[0]),
{
    let mut i: usize = 0;
    let ghost all = texts(strings@);
    while i < strings.len()
        invariant
            i <= strings@.len(),
            strings@.len() > 0,
            all == texts(strings@),
            forall|j: int| 0 <= j < i ==> all[0].is_prefix_of(#[trigger] all[j]),
        decreases strings@.len() - i,
    {
        assert(all[i as int] == strings@[i as int]@);
        if !starts_with(&strings[i], &strings[0]) {
            return false;
        }
        i = i + 1;
    }
    true
}

/// Whether the common prefix of the strings is defined.
pub fn common_prefix_defined(strings: &[String]) -> (r: bool)
    ensures
        r == has_common_prefix(texts(strings@)),
{
    strings.len() < 2 || strings[0].as_str().is_ascii() || !first_is_common(strings)
}

/// One of the strings that does not have the character `c` at place `n`, if there is one.
fn without_char(strings: &[String], n: usize, c: char) -> (r: Option<usize>)
    ensures
        r is None ==> forall|i: int|
            0 <= i < strings@.len() ==> n < (#[trigger] strings@[i])@.len()
                && strings@[i]@[n as int] == c,
        r matches Some(k) ==> k < strings@.len() && (n >= strings@[k as int]@.len()
            || strings@[k as int]@[n as int] != c),
{
    let mut i: usize = 0;
    while i < strings.len()
        invariant
            i <= strings@.len(),
            forall|j: int|
                0 <= j < i ==> n < (#[trigger] strings@[j])@.len() && strings@[j]@[n as int] == c,
        decreases strings@.len() - i,
    {
        let s = strings[i].as_str();
        if n >= s.unicode_len() || s.get_char(n) != c {
            return Some(i);
        }
        i = i + 1;
    }
    None
}

/// The longest text with which every string starts; nothing for no strings.
pub fn longest_common_prefix(strings: &[String]) -> (r: String)
    requires
        has_common_prefix(texts(strings@)),
    ensures
        r@ == common_prefix(texts(strings@)),
{
    if strings.len() == 0 {
        return String::new();
    }
    let ghost all = texts(strings@);
    let first = to_chars(&strings[0]);
    let mut n: usize = 0;
    assert forall|i: int| 0 <= i < all.len() implies all[0].take(0).is_prefix_of(
        #[trigger] all[i],
    ) by {
        assert(all[0].take(0) =~= all[i].subrange(0, 0));
    }
    while n < first.len()
        invariant
            strings@.len() > 0,
            all == texts(strings@),
            first@ == all[0],
            n <= first@.len(),
            common(all, all[0].take(n as int)),
        ensures
            is_longest_common(all, all[0].take(n as int)),
        decreases first@.len() - n,
    {
        let c = first[n];
        match without_char(strings, n, c) {
            Some(k) => {
                proof {
                    assert(all[k as int] == strings@[k as int]@);
                    lemma_common_bound(all, k as int, n as int);
                }
                break;
            },
            None => {
                assert forall|i: int| 0 <= i < all.len() implies all[0].take(
                    n + 1,
                ).is_prefix_of(#[trigger] all[i]) by {
                    assert(all[i] == strings@[i]@);
                    assert(all[0].take(n as int).is_prefix_of(all[i]));
                    let longer = all[0].take(n + 1);
                    let other = all[i].subrange(0, n + 1);
                    assert forall|j: int| 0 <= j < n + 1 implies #[trigger] longer[j]
                        == other[j] by {
                        if j < n {
                            assert(all[0].take(n as int)[j] == all[i].subrange(0, n as int)[j]);
                        }
                    }
                    assert(longer =~= other);
                }
                n = n + 1;
                if n == first.len() {
                    proof {
                        lemma_common_bound(all, 0, n as int);
                    }
                }
            },
        }
    }
    proof {
        lemma_common_prefix_is(all, all[0].take(n as int));
    }
    let r = from_chars(slice_subrange(first.as_slice(), 0, n));
    assert(r@ =~= all[0].take(n as int));
    r
}

/// The names of directory entries.
pub open spec fn names(files: Seq<(Seq<char>, bool)>) -> Seq<Seq<char>> {
    Seq::new(files.len(), |i: int| files[i].0)
}

/// The names of directory entries.
pub fn entry_names(files: &[(String, bool)]) -> (r: Vec<String>)
    ensures
        texts(r@) == names(views(files@)),
{
    let mut out: Vec<String> = Vec::new();
    let mut i: usize = 0;
    let ghost all = names(views(files@));
    while i < files.len()
        invariant
            i <= files@.len(),
            all == names(views(files@)),
            texts(out@) == all.take(i as int),
        decreases files@.len() - i,
    {
        let ghost before = texts(out@);
        out.push(files[i].0.clone());
        assert(all[i as int] == files@[i as int].0@);
        assert(texts(out@) =~= before.push(files@[i as int].0@));
        assert(all.take(i + 1) =~= all.take(i as int).push(all[i as int]));
        i = i + 1;
    }
    assert(all.take(i as int) =~= all);
    out
}

/// The longest text with which the name of every entry starts.
pub fn longest_common_prefix_files(files: &[(String, bool)]) -> (r: String)
    requires
        has_common_prefix(names(views(files@))),
    ensures
        r@ == common_prefix(names(views(files@))),
{
    let list = entry_names(files);
    longest_common_prefix(&list)
}

proof fn lemma_least_char(c: char)
    ensures
        '\0' <= c,
{
}

/// The common prefix is undefined only for two or more strings that all start with the first of
/// them, where this one holds a character outside ASCII.
pub proof fn law_where_no_common_prefix_is_defined(strings: Seq<Seq<char>>)
    ensures
        !has_common_prefix(strings) <==> {
            &&& strings.len() >= 2
            &&& forall|i: int|
                0 <= i < strings.len() ==> strings[0].is_prefix_of(#[trigger] strings[i])
            &&& exists|j: int| 0 <= j < strings[0].len() && #[trigger] strings[0][j] >= '\u{80}'
        },
{
    if strings.len() >= 2 {
        let first = strings[0];
        if !is_ascii_chars(first) {
            let j = choose|j: int|
                0 <= j < first.len() && !('\0' <= #[trigger] first[j] <= '\u{7f}');
            lemma_least_char(first[j]);
            assert(first[j] >= '\u{80}');
        }
    }
}

/// Every string starts with the common prefix, and what every string starts with is no longer
/// than it; so with two strings that differ at a place, or end there, it ends there at the
/// latest.
pub proof fn law_common_prefix_of_every_string(
    strings: Seq<Seq<char>>,
    other: Seq<char>,
    i: int,
    j: int,
    place: int,
)
    requires
        0 <= i < strings.len(),
        0 <= j < strings.len(),
        0 <= place,
    ensures
        common_prefix(strings).is_prefix_of(strings[i]),
        (forall|k: int| 0 <= k < strings.len() ==> other.is_prefix_of(#[trigger] strings[k]))
            ==> other.len() <= common_prefix(strings).len(),
        place >= strings[i].len() || place < strings[j].len() && strings[i][place]
            != strings[j][place] ==> common_prefix(strings).len() <= place,
{
    law_common_prefix_is_longest(strings);
    let p = common_prefix(strings);
    assert(p.is_prefix_of(strings[i]) && p.is_prefix_of(strings[j]));
    if forall|k: int| 0 <= k < strings.len() ==> other.is_prefix_of(#[trigger] strings[k]) {
        assert(common(strings, other));
    }
    if p.len() > place {
        assert(p[place] == strings[i].subrange(0, p.len() as int)[place]);
        assert(p[place] == strings[j].subrange(0, p.len() as int)[place]);
    }
}

} // verus!
