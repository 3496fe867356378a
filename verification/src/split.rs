//! Cutting sequences into pieces: at separators, at line ends, at blanks.
use vstd::prelude::*;
use vstd::slice::slice_subrange;
use vstd::string::*;

use crate::text::{from_chars, texts, to_chars};

verus! {

/// The test whether an item is `x`.
pub open spec fn equals<T>(x: T) -> spec_fn(T) -> bool {
    |y: T| y == x
}

/// The pieces of `s` between separators, in order. There is one piece more
/// than there are separators; a piece can be empty.
pub open spec fn split<T>(s: Seq<T>, sep: spec_fn(T) -> bool) -> Seq<Seq<T>>
    decreases s.len(),
{
    if s.len() == 0 {
        seq![Seq::empty()]
    } else {
        let p = split(s.drop_last(), sep);
        if sep(s.last()) {
            p.push(Seq::empty())
        } else {
            p.drop_last().push(p.last().push(s.last()))
        }
    }
}

/// The pieces that hold something.
pub open spec fn nonempty<T>(pieces: Seq<Seq<T>>) -> Seq<Seq<T>> {
    pieces.filter(|p: Seq<T>| p.len() > 0)
}

/// The last piece is looked at last.
pub proof fn lemma_nonempty_push<T>(pieces: Seq<Seq<T>>, p: Seq<T>)
    ensures
        nonempty(pieces.push(p)) == if p.len() > 0 {
            nonempty(pieces).push(p)
        } else {
            nonempty(pieces)
        },
{
    reveal(Seq::filter);
    assert(pieces.push(p).drop_last() =~= pieces);
}

pub proof fn lemma_split_nonempty<T>(s: Seq<T>, sep: spec_fn(T) -> bool)
    ensures
        split(s, sep).len() > 0,
    decreases s.len(),
{
    if s.len() > 0 {
        lemma_split_nonempty(s.drop_last(), sep);
    }
}

/// One more item either opens a new piece or lengthens the last one.
pub proof fn lemma_split_push<T>(s: Seq<T>, x: T, sep: spec_fn(T) -> bool)
    ensures
        split(s.push(x), sep) == if sep(x) {
            split(s, sep).push(Seq::empty())
        } else {
            split(s, sep).drop_last().push(split(s, sep).last().push(x))
        },
        split(s, sep).len() > 0,
{
    assert(s.push(x).drop_last() =~= s);
    lemma_split_nonempty(s, sep);
}

/// A sequence without separators is one piece.
pub proof fn lemma_split_whole<T>(s: Seq<T>, sep: spec_fn(T) -> bool)
    requires
        forall|i: int| 0 <= i < s.len() ==> !sep(#[trigger] s[i]),
    ensures
        split(s, sep) == seq![s],
    decreases s.len(),
{
    if s.len() > 0 {
        lemma_split_whole(s.drop_last(), sep);
        assert(s.drop_last().push(s.last()) =~= s);
        assert(split(s, sep) =~= seq![s]);
    } else {
        assert(s =~= Seq::empty());
        assert(split(s, sep) =~= seq![s]);
    }
}

/// Around a separator both sides are cut on their own.
pub proof fn lemma_split_at<T>(a: Seq<T>, x: T, b: Seq<T>, sep: spec_fn(T) -> bool)
    requires
        sep(x),
    ensures
        split(a.push(x) + b, sep) == split(a, sep) + split(b, sep),
    decreases b.len(),
{
    lemma_split_push(a, x, sep);
    lemma_split_nonempty(b, sep);
    if b.len() == 0 {
        assert(a.push(x) + b =~= a.push(x));
        assert(split(a, sep).push(Seq::empty()) =~= split(a, sep) + split(b, sep));
    } else {
        let c = b.drop_last();
        lemma_split_at(a, x, c, sep);
        lemma_split_nonempty(c, sep);
        lemma_split_push(a.push(x) + c, b.last(), sep);
        assert((a.push(x) + c).push(b.last()) =~= a.push(x) + b);
        let left = split(a, sep);
        let right = split(c, sep);
        if sep(b.last()) {
            assert((left + right).push(Seq::empty()) =~= left + right.push(Seq::empty()));
        } else {
            assert((left + right).last() == right.last());
            assert((left + right).drop_last() =~= left + right.drop_last());
            assert((left + right.drop_last()).push(right.last().push(b.last())) =~= left
                + right.drop_last().push(right.last().push(b.last())));
        }
    }
}

/// No piece holds a separator.
pub proof fn lemma_split_pieces<T>(s: Seq<T>, sep: spec_fn(T) -> bool)
    ensures
        forall|i: int, j: int|
            0 <= i < split(s, sep).len() && 0 <= j < split(s, sep)[i].len() ==> !sep(
                #[trigger] split(s, sep)[i][j],
            ),
    decreases s.len(),
{
    if s.len() > 0 {
        lemma_split_pieces(s.drop_last(), sep);
        lemma_split_nonempty(s.drop_last(), sep);
        let p = split(s.drop_last(), sep);
        assert forall|i: int, j: int|
            0 <= i < split(s, sep).len() && 0 <= j < split(s, sep)[i].len() implies !sep(
            #[trigger] split(s, sep)[i][j],
        ) by {
            if i < p.len() - 1 {
                assert(split(s, sep)[i] == p[i]);
                assert(!sep(p[i][j]));
            } else if i == p.len() - 1 {
                if j < p[i].len() {
                    assert(split(s, sep)[i][j] == p[i][j]);
                    assert(!sep(p[i][j]));
                }
            }
        }
    }
}

/// The pieces of `s` between occurrences of `sep`.
pub fn split_text(s: &str, sep: char) -> (r: Vec<String>)
    ensures
        texts(r@) == split(s@, equals(sep)),
{
    let chars = to_chars(s);
    let mut out: Vec<String> = Vec::new();
    let mut cur = String::new();
    let mut i: usize = 0;
    assert(chars@.take(0) =~= Seq::empty());
    assert(texts(out@).push(cur@) =~= split(chars@.take(0), equals(sep)));
    while i < chars.len()
        invariant
            i <= chars@.len(),
            split(chars@.take(i as int), equals(sep)) == texts(out@).push(cur@),
        decreases chars@.len() - i,
    {
        let c = chars[i];
        let ghost before = texts(out@);
        let ghost piece = cur@;
        proof {
            lemma_split_push(chars@.take(i as int), c, equals(sep));
            assert(chars@.take(i + 1) =~= chars@.take(i as int).push(c));
            assert(before.push(piece).drop_last() =~= before);
        }
        if c == sep {
            out.push(cur);
            cur = String::new();
            assert(texts(out@) =~= before.push(piece));
        } else {
            cur.push(c);
        }
        i = i + 1;
    }
    assert(chars@.take(i as int) =~= chars@);
    let ghost before = texts(out@);
    let ghost piece = cur@;
    out.push(cur);
    assert(texts(out@) =~= before.push(piece));
    out
}

/// What follows the last `c` in `s`: all of it where there is none.
pub open spec fn after_last(s: Seq<char>, c: char) -> Seq<char> {
    split(s, equals(c)).last()
}

/// What ends with the last `c` in `s`: nothing where there is none.
pub open spec fn through_last(s: Seq<char>, c: char) -> Seq<char> {
    s.take(s.len() - after_last(s, c).len())
}

/// The last `c` stands right before what follows it.
pub proof fn lemma_last(s: Seq<char>, c: char, head: Seq<char>, tail: Seq<char>)
    requires
        s == head.push(c) + tail,
        !tail.contains(c),
    ensures
        after_last(s, c) == tail,
        through_last(s, c) == head.push(c),
{
    lemma_split_at(head, c, tail, equals(c));
    assert forall|i: int| 0 <= i < tail.len() implies !equals(c)(#[trigger] tail[i]) by {
        assert(tail.contains(tail[i]));
    }
    lemma_split_whole(tail, equals(c));
    lemma_split_nonempty(head, equals(c));
    assert(s.take(head.len() as int + 1) =~= head.push(c));
}

/// Without `c`, everything follows its last occurrence.
pub proof fn lemma_no_last(s: Seq<char>, c: char)
    requires
        !s.contains(c),
    ensures
        after_last(s, c) == s,
        through_last(s, c) == Seq::<char>::empty(),
{
    assert forall|i: int| 0 <= i < s.len() implies !equals(c)(#[trigger] s[i]) by {
        assert(s.contains(s[i]));
    }
    lemma_split_whole(s, equals(c));
    assert(s.take(0) =~= Seq::empty());
}

/// `s` cut behind the last `c`, where there is one.
pub fn cut_last(s: &str, c: char) -> (r: Option<(String, String)>)
    ensures
        r is None <==> !s@.contains(c),
        r matches Some((head, tail)) ==> {
            &&& head@ == through_last(s@, c)
            &&& tail@ == after_last(s@, c)
            &&& s@ == head@ + tail@
            &&& head@.len() > 0
            &&& head@.last() == c
            &&& !tail@.contains(c)
        },
{
    let chars = to_chars(s);
    let mut i: usize = chars.len();
    while i > 0
        invariant
            i <= chars@.len(),
            chars@ == s@,
            forall|j: int| i <= j < chars@.len() ==> chars@[j] != c,
        decreases i,
    {
        if chars[i - 1] == c {
            let head = from_chars(slice_subrange(chars.as_slice(), 0, i));
            let tail = from_chars(slice_subrange(chars.as_slice(), i, chars.len()));
            proof {
                assert(head@ =~= chars@.take(i - 1).push(c));
                assert(s@ =~= head@ + tail@);
                assert(!tail@.contains(c));
                lemma_last(s@, c, chars@.take(i - 1), tail@);
                assert(s@[i - 1] == c);
            }
            return Some((head, tail));
        }
        i = i - 1;
    }
    None
}

/// A line without a carriage return at its end.
pub open spec fn strip_return(line: Seq<char>) -> Seq<char> {
    if line.len() > 0 && line.last() == '\r' {
        line.drop_last()
    } else {
        line
    }
}

/// The lines of `s`. A line ends with a line feed, or with a carriage return and
/// a line feed; what follows the last line feed is a line if it is not empty.
pub open spec fn lines(s: Seq<char>) -> Seq<Seq<char>> {
    let p = split(s, equals('\n'));
    let ended = Seq::new((p.len() - 1) as nat, |i: int| strip_return(p[i]));
    if p.last().len() > 0 {
        ended.push(p.last())
    } else {
        ended
    }
}

/// The lines of `s` that are not empty.
pub fn nonempty_lines(s: &str) -> (r: Vec<String>)
    ensures
        texts(r@) == nonempty(lines(s@)),
{
    let pieces = split_text(s, '\n');
    proof {
        lemma_split_nonempty(s@, equals('\n'));
    }
    let ghost p = split(s@, equals('\n'));
    let ghost ended = Seq::new((p.len() - 1) as nat, |i: int| strip_return(p[i]));
    let mut out: Vec<String> = Vec::new();
    let mut i: usize = 0;
    proof {
        reveal(Seq::filter);
        assert(texts(out@) =~= nonempty(ended.take(0)));
    }
    while i < pieces.len() - 1
        invariant
            i < pieces@.len(),
            texts(pieces@) == p,
            ended == Seq::new((p.len() - 1) as nat, |i: int| strip_return(p[i])),
            texts(out@) == nonempty(ended.take(i as int)),
        decreases pieces@.len() - i,
    {
        let chars = to_chars(&pieces[i]);
        assert(chars@ == p[i as int]);
        let mut end: usize = chars.len();
        if end > 0 && chars[end - 1] == '\r' {
            end = end - 1;
        }
        let line = from_chars(slice_subrange(chars.as_slice(), 0, end));
        proof {
            assert(line@ =~= ended[i as int]);
            lemma_nonempty_push(ended.take(i as int), line@);
            assert(ended.take(i + 1) =~= ended.take(i as int).push(line@));
        }
        let ghost before = texts(out@);
        let ghost text = line@;
        if end > 0 {
            out.push(line);
            assert(texts(out@) =~= before.push(text));
        }
        i = i + 1;
    }
    assert(ended.take(i as int) =~= ended);
    let last = pieces[i].clone();
    proof {
        lemma_nonempty_push(ended, last@);
    }
    let ghost before = texts(out@);
    let ghost text = last@;
    if !last.as_str().is_empty() {
        out.push(last);
        assert(texts(out@) =~= before.push(text));
    }
    out
}

/// Whether `c` has the Unicode property `White_Space`.
#[verifier::opaque]
pub open spec fn is_white_space(c: char) -> bool {
    ||| '\u{9}' <= c <= '\u{d}'
    ||| c == ' '
    ||| c == '\u{85}'
    ||| c == '\u{a0}'
    ||| c == '\u{1680}'
    ||| '\u{2000}' <= c <= '\u{200a}'
    ||| c == '\u{2028}'
    ||| c == '\u{2029}'
    ||| c == '\u{202f}'
    ||| c == '\u{205f}'
    ||| c == '\u{3000}'
}

/// Whether `c` has the Unicode property `White_Space`.
pub fn white_space(c: char) -> (r: bool)
    ensures
        r == is_white_space(c),
{
    reveal(is_white_space);
    ('\u{9}' <= c && c <= '\u{d}') || c == ' ' || c == '\u{85}' || c == '\u{a0}' || c == '\u{1680}'
        || ('\u{2000}' <= c && c <= '\u{200a}') || c == '\u{2028}' || c == '\u{2029}' || c
        == '\u{202f}' || c == '\u{205f}' || c == '\u{3000}'
}

/// `s` without the longest run at its end that passes the test.
pub open spec fn drop_end(s: Seq<char>, test: spec_fn(char) -> bool) -> Seq<char>
    decreases s.len(),
{
    if s.len() > 0 && test(s.last()) {
        drop_end(s.drop_last(), test)
    } else {
        s
    }
}

/// `s` without the longest run at its start that passes the test.
pub open spec fn drop_start(s: Seq<char>, test: spec_fn(char) -> bool) -> Seq<char>
    decreases s.len(),
{
    if s.len() > 0 && test(s.first()) {
        drop_start(s.drop_first(), test)
    } else {
        s
    }
}

/// The test whether a character is white space.
pub open spec fn white() -> spec_fn(char) -> bool {
    |c: char| is_white_space(c)
}

/// `s` without white space at either end.
pub open spec fn trim(s: Seq<char>) -> Seq<char> {
    drop_end(drop_start(s, white()), white())
}

/// How many characters of white space `chars` starts with.
fn white_start(chars: &[char]) -> (from: usize)
    ensures
        from <= chars@.len(),
        chars@.skip(from as int) == drop_start(chars@, white()),
{
    let mut from: usize = 0;
    assert(chars@.skip(0) =~= chars@);
    while from < chars.len()
        invariant
            from <= chars@.len(),
            drop_start(chars@.skip(from as int), white()) == drop_start(chars@, white()),
        decreases chars@.len() - from,
    {
        let c = chars[from];
        assert(chars@.skip(from as int).first() == c);
        if !white_space(c) {
            return from;
        }
        assert(chars@.skip(from as int).drop_first() =~= chars@.skip(from + 1));
        from = from + 1;
    }
    from
}

/// Where the white space at the end of `chars` starts.
fn white_end(chars: &[char]) -> (to: usize)
    ensures
        to <= chars@.len(),
        chars@.take(to as int) == drop_end(chars@, white()),
{
    let mut to: usize = chars.len();
    assert(chars@.take(to as int) =~= chars@);
    while 0 < to
        invariant
            to <= chars@.len(),
            drop_end(chars@.take(to as int), white()) == drop_end(chars@, white()),
        decreases to,
    {
        let c = chars[to - 1];
        assert(chars@.take(to as int).last() == c);
        if !white_space(c) {
            return to;
        }
        assert(chars@.take(to as int).drop_last() =~= chars@.take(to - 1));
        to = to - 1;
    }
    to
}

/// `s` without white space at either end.
pub fn trim_text(s: &str) -> (r: String)
    ensures
        r@ == trim(s@),
{
    let chars = to_chars(s);
    let from = white_start(chars.as_slice());
    let rest = slice_subrange(chars.as_slice(), from, chars.len());
    assert(rest@ =~= chars@.skip(from as int));
    let to = white_end(rest);
    let kept = slice_subrange(rest, 0, to);
    assert(kept@ =~= rest@.take(to as int));
    from_chars(kept)
}

/// `s` without the characters `c` at its end.
pub fn trim_end_char(s: &str, c: char) -> (r: String)
    ensures
        r@ == drop_end(s@, equals(c)),
{
    let chars = to_chars(s);
    let mut to: usize = chars.len();
    assert(chars@.take(to as int) =~= chars@);
    while 0 < to && chars[to - 1] == c
        invariant
            to <= chars@.len(),
            drop_end(chars@.take(to as int), equals(c)) == drop_end(chars@, equals(c)),
        decreases to,
    {
        assert(chars@.take(to as int).drop_last() =~= chars@.take(to - 1));
        to = to - 1;
    }
    let r = from_chars(slice_subrange(chars.as_slice(), 0, to));
    assert(r@ =~= chars@.take(to as int));
    r
}

/// What is trimmed is white space at the ends, and all of it: around the trimmed text stands
/// white space only, and the trimmed text neither starts nor ends with any.
pub proof fn law_trim(s: Seq<char>)
    ensures
        exists|left: Seq<char>, right: Seq<char>|
            {
                &&& #[trigger] (left + trim(s) + right) == s
                &&& forall|i: int| 0 <= i < left.len() ==> is_white_space(#[trigger] left[i])
                &&& forall|i: int| 0 <= i < right.len() ==> is_white_space(#[trigger] right[i])
            },
        trim(s).len() > 0 ==> !is_white_space(trim(s).first()) && !is_white_space(trim(s).last()),
{
    let middle = drop_start(s, white());
    lemma_drop_start(s, white());
    lemma_drop_end(middle, white());
    let left = s.take(s.len() - middle.len());
    let right = middle.skip(trim(s).len() as int);
    assert(left + trim(s) + right =~= s);
    assert forall|i: int| 0 <= i < left.len() implies is_white_space(#[trigger] left[i]) by {
        assert(white()(s[i]));
    }
    assert forall|i: int| 0 <= i < right.len() implies is_white_space(#[trigger] right[i]) by {
        assert(white()(middle[trim(s).len() + i]));
    }
    if trim(s).len() > 0 {
        assert(trim(s).first() == middle.first());
    }
}

/// What stays without a run at the start is the end of the text, and starts with something that
/// fails the test; what goes passes it.
proof fn lemma_drop_start(s: Seq<char>, test: spec_fn(char) -> bool)
    ensures
        drop_start(s, test).len() <= s.len(),
        drop_start(s, test) == s.skip(s.len() - drop_start(s, test).len()),
        forall|i: int|
            0 <= i < s.len() - drop_start(s, test).len() ==> test(#[trigger] s[i]),
        drop_start(s, test).len() > 0 ==> !test(drop_start(s, test).first()),
    decreases s.len(),
{
    if s.len() > 0 && test(s.first()) {
        let t = s.drop_first();
        lemma_drop_start(t, test);
        let n = t.len() - drop_start(t, test).len();
        assert(t.skip(n) =~= s.skip(n + 1));
        assert forall|i: int| 0 <= i < n + 1 implies test(#[trigger] s[i]) by {
            if i > 0 {
                assert(test(t[i - 1]));
            }
        }
    } else {
        assert(s.skip(0) =~= s);
    }
}

/// What stays without a run at the end is the start of the text, and ends with something that
/// fails the test; what goes passes it.
pub proof fn lemma_drop_end(s: Seq<char>, test: spec_fn(char) -> bool)
    ensures
        drop_end(s, test).len() <= s.len(),
        drop_end(s, test) == s.take(drop_end(s, test).len() as int),
        forall|i: int| drop_end(s, test).len() <= i < s.len() ==> test(#[trigger] s[i]),
        drop_end(s, test).len() > 0 ==> !test(drop_end(s, test).last()),
    decreases s.len(),
{
    if s.len() > 0 && test(s.last()) {
        let t = s.drop_last();
        lemma_drop_end(t, test);
        let n = drop_end(t, test).len() as int;
        assert(t.take(n) =~= s.take(n));
        assert forall|i: int| n <= i < s.len() implies test(#[trigger] s[i]) by {
            if i < t.len() {
                assert(test(t[i]));
            }
        }
    } else {
        assert(s.take(s.len() as int) =~= s);
    }
}

/// Lines are read one by one: a line feed ends a line, and so does a carriage return with a
/// line feed after it; a carriage return elsewhere is part of its line, and so it is at the end
/// of a last line that no line feed ends.
pub proof fn law_lines_one_by_one(line: Seq<char>, rest: Seq<char>)
    requires
        !line.contains('\n'),
    ensures
        lines(line.push('\r').push('\n') + rest) == seq![line] + lines(rest),
        line.len() == 0 || line.last() != '\r' ==> lines(line.push('\n') + rest) == seq![line]
            + lines(rest),
        line.len() > 0 ==> lines(line) == seq![line],
        lines(Seq::empty()) == Seq::<Seq<char>>::empty(),
{
    let sep = equals('\n');
    let with_return = line.push('\r');
    assert forall|i: int| 0 <= i < line.len() implies !sep(#[trigger] line[i]) by {
        assert(line.contains(line[i]));
    }
    assert forall|i: int| 0 <= i < with_return.len() implies !sep(#[trigger] with_return[i]) by {
        if i < line.len() {
            assert(line.contains(line[i]));
        }
    }
    lemma_split_whole(line, sep);
    lemma_split_whole(with_return, sep);
    lemma_split_at(line, '\n', rest, sep);
    lemma_split_at(with_return, '\n', rest, sep);
    lemma_split_nonempty(rest, sep);
    assert(with_return.drop_last() =~= line);
    assert(lines(with_return.push('\n') + rest) =~= seq![line] + lines(rest));
    if line.len() == 0 || line.last() != '\r' {
        assert(lines(line.push('\n') + rest) =~= seq![line] + lines(rest));
    }
    if line.len() > 0 {
        assert(lines(line) =~= seq![line]);
    }
    assert(lines(Seq::empty()) =~= Seq::<Seq<char>>::empty());
}

/// A text without the separator is one piece, around a separator both sides are cut on their
/// own, and of the pieces those that are empty do not count where only others are asked for.
pub proof fn law_pieces(a: Seq<char>, sep: char, b: Seq<char>)
    requires
        !a.contains(sep),
    ensures
        split(a, equals(sep)) == seq![a],
        split(a.push(sep) + b, equals(sep)) == seq![a] + split(b, equals(sep)),
        nonempty(split(a.push(sep) + b, equals(sep))) == if a.len() > 0 {
            seq![a] + nonempty(split(b, equals(sep)))
        } else {
            nonempty(split(b, equals(sep)))
        },
{
    assert forall|i: int| 0 <= i < a.len() implies !equals(sep)(#[trigger] a[i]) by {
        assert(a.contains(a[i]));
    }
    lemma_split_whole(a, equals(sep));
    lemma_split_at(a, sep, b, equals(sep));
    let p = split(b, equals(sep));
    let test = |q: Seq<char>| q.len() > 0;
    Seq::filter_distributes_over_add(seq![a], p, test);
    lemma_nonempty_push(Seq::<Seq<char>>::empty(), a);
    reveal(Seq::filter);
    assert(Seq::<Seq<char>>::empty().push(a) =~= seq![a]);
    assert(nonempty(Seq::<Seq<char>>::empty()) =~= Seq::empty());
    assert(nonempty(seq![a] + p) == nonempty(seq![a]) + nonempty(p));
    if a.len() > 0 {
        assert(nonempty(seq![a]) =~= seq![a]);
    } else {
        assert(Seq::empty() + nonempty(p) =~= nonempty(p));
    }
}

} // verus!
