//! Building text: joining, decimal numbers, padding.
use vstd::prelude::*;
use vstd::string::*;

use crate::text::{texts, to_chars};

verus! {

/// The parts one after the other, with `sep` between neighbours.
pub open spec fn join(parts: Seq<Seq<char>>, sep: Seq<char>) -> Seq<char> {
    if parts.len() == 0 {
        Seq::empty()
    } else {
        parts[0] + parts.skip(1).map_values(|p: Seq<char>| sep + p).flatten()
    }
}

/// The parts one after the other, with `sep` between neighbours.
pub fn join_texts(parts: &[String], sep: &str) -> (r: String)
    ensures
        r@ == join(texts(parts@), sep@),
{
    if parts.len() == 0 {
        return String::new();
    }
    let ghost all = texts(parts@);
    let ghost with_sep = |p: Seq<char>| sep@ + p;
    let ghost tail = all.skip(1).map_values(with_sep);
    let mut out = parts[0].clone();
    let mut i: usize = 1;
    proof {
        assert(tail.take(0).flatten() =~= Seq::empty());
        assert(out@ =~= all[0] + tail.take(0).flatten());
    }
    while i < parts.len()
        invariant
            1 <= i <= parts@.len(),
            all == texts(parts@),
            with_sep == (|p: Seq<char>| sep@ + p),
            tail == all.skip(1).map_values(with_sep),
            out@ == all[0] + tail.take(i - 1).flatten(),
        decreases parts@.len() - i,
    {
        let ghost before = tail.take(i - 1);
        let ghost built = out@;
        out.append(sep);
        out.append(&parts[i]);
        proof {
            assert(tail[i - 1] == sep@ + all[i as int]);
            before.lemma_flatten_push(tail[i - 1]);
            assert(tail.take(i as int) =~= before.push(tail[i - 1]));
            assert(out@ =~= all[0] + (before.flatten() + tail[i - 1]));
        }
        i = i + 1;
    }
    assert(tail.take(i - 1) =~= tail);
    out
}

/// Each part followed by `end`.
pub open spec fn each_ended(parts: Seq<Seq<char>>, end: char) -> Seq<char> {
    parts.map_values(|p: Seq<char>| p.push(end)).flatten()
}

/// Each part followed by `end`.
pub fn end_each(parts: &[String], end: char) -> (r: String)
    ensures
        r@ == each_ended(texts(parts@), end),
{
    let ghost all = texts(parts@);
    let ghost ended = all.map_values(|p: Seq<char>| p.push(end));
    let mut out = String::new();
    let mut i: usize = 0;
    assert(out@ =~= ended.take(0).flatten());
    while i < parts.len()
        invariant
            i <= parts@.len(),
            all == texts(parts@),
            ended == all.map_values(|p: Seq<char>| p.push(end)),
            out@ == ended.take(i as int).flatten(),
        decreases parts@.len() - i,
    {
        let ghost before = ended.take(i as int);
        out.append(&parts[i]);
        out.push(end);
        proof {
            before.lemma_flatten_push(ended[i as int]);
            assert(ended.take(i + 1) =~= before.push(ended[i as int]));
            assert(out@ =~= before.flatten() + ended[i as int]);
        }
        i = i + 1;
    }
    assert(ended.take(i as int) =~= ended);
    out
}

/// The character of a decimal digit.
pub open spec fn digit(d: nat) -> char
    recommends
        d < 10,
{
    (48 + d) as char
}

/// The decimal digits of `n`, without leading zeros.
pub open spec fn decimal(n: nat) -> Seq<char>
    decreases n,
{
    if n < 10 {
        seq![digit(n)]
    } else {
        decimal(n / 10).push(digit(n % 10))
    }
}

/// The decimal digits of `n`, without leading zeros.
pub fn decimal_text(n: usize) -> (r: String)
    ensures
        r@ == decimal(n as nat),
{
    let mut rest: usize = n;
    let mut backwards: Vec<char> = Vec::new();
    let ghost mut done: Seq<char> = Seq::empty();
    assert(decimal(rest as nat) + done =~= decimal(n as nat));
    while rest >= 10
        invariant
            decimal(rest as nat) + done == decimal(n as nat),
            done == backwards@.reverse(),
        decreases rest,
    {
        let d = (48 + (rest % 10) as u8) as char;
        backwards.push(d);
        proof {
            let shorter = decimal((rest / 10) as nat);
            assert(decimal(rest as nat) == shorter.push(d));
            assert(shorter.push(d) + done =~= shorter + (seq![d] + done));
            done = seq![d] + done;
            assert(done =~= backwards@.reverse());
        }
        rest = rest / 10;
    }
    let d = (48 + rest as u8) as char;
    backwards.push(d);
    proof {
        assert(decimal(rest as nat) =~= seq![d]);
        done = seq![d] + done;
        assert(done =~= backwards@.reverse());
    }
    let mut out = String::new();
    let mut i: usize = backwards.len();
    assert(out@ =~= done.take(0));
    while i > 0
        invariant
            i <= backwards@.len(),
            done == backwards@.reverse(),
            out@ == done.take(backwards@.len() - i),
        decreases i,
    {
        i = i - 1;
        out.push(backwards[i]);
        assert(done.take(backwards@.len() - i) =~= done.take(backwards@.len() - i - 1).push(
            backwards@[i as int],
        ));
    }
    assert(done.take(backwards@.len() as int) =~= done);
    out
}

/// Whether `c` is a decimal digit.
pub open spec fn is_digit(c: char) -> bool {
    '0' <= c <= '9'
}

/// The number that decimal digits stand for.
pub open spec fn value(digits: Seq<char>) -> nat
    decreases digits.len(),
{
    if digits.len() == 0 {
        0
    } else {
        value(digits.drop_last()) * 10 + (digits.last() as nat - 48) as nat
    }
}

/// The digits of a number, without the plus sign that may stand before them.
pub open spec fn unsigned(s: Seq<char>) -> Seq<char> {
    if s.len() > 0 && s[0] == '+' {
        s.skip(1)
    } else {
        s
    }
}

/// The number that `s` writes down: digits, at least one, with or without a plus sign
/// before them.
pub open spec fn number(s: Seq<char>) -> Option<nat> {
    if unsigned(s).len() > 0 && forall|i: int|
        0 <= i < unsigned(s).len() ==> is_digit(#[trigger] unsigned(s)[i]) {
        Some(value(unsigned(s)))
    } else {
        None
    }
}

proof fn lemma_value_grows(digits: Seq<char>, i: int)
    requires
        0 <= i <= digits.len(),
        forall|j: int| 0 <= j < digits.len() ==> is_digit(#[trigger] digits[j]),
    ensures
        value(digits.take(i)) <= value(digits),
    decreases digits.len() - i,
{
    if i < digits.len() {
        lemma_value_grows(digits, i + 1);
        assert(digits.take(i + 1).drop_last() =~= digits.take(i));
        assert(is_digit(digits[i]));
    } else {
        assert(digits.take(i) =~= digits);
    }
}

/// The number that `s` writes down, where it fits.
pub fn parse_number(s: &str) -> (r: Option<usize>)
    ensures
        r is Some <==> number(s@) is Some && number(s@)->0 <= usize::MAX,
        r is Some ==> r->0 == number(s@)->0,
{
    let chars = to_chars(s);
    let mut i: usize = 0;
    if chars.len() > 0 && chars[0] == '+' {
        i = 1;
    }
    let start: usize = i;
    let ghost digits = unsigned(s@);
    assert(digits =~= chars@.skip(start as int));
    if start == chars.len() {
        return None;
    }
    let mut n: usize = 0;
    assert(digits.take(0) =~= Seq::empty());
    while i < chars.len()
        invariant
            start <= i <= chars@.len(),
            start < chars@.len(),
            chars@ == s@,
            digits == unsigned(s@),
            digits == chars@.skip(start as int),
            forall|j: int| 0 <= j < i - start ==> is_digit(#[trigger] digits[j]),
            n == value(digits.take(i - start)),
        decreases chars@.len() - i,
    {
        let c = chars[i];
        assert(digits[i - start] == c);
        if !('0' <= c && c <= '9') {
            return None;
        }
        let d = c as u32 as usize - 48;
        let ghost k = i - start;
        proof {
            assert(digits.take(k + 1).drop_last() =~= digits.take(k));
            assert(value(digits.take(k + 1)) == n * 10 + d);
            if number(s@) is Some {
                lemma_value_grows(digits, k + 1);
            }
        }
        let tens = n.checked_mul(10);
        if tens.is_none() {
            return None;
        }
        let sum = tens.unwrap().checked_add(d);
        if sum.is_none() {
            return None;
        }
        n = sum.unwrap();
        i = i + 1;
    }
    assert(digits.take(i - start) =~= digits);
    Some(n)
}

proof fn lemma_decimal_digits(n: nat)
    ensures
        decimal(n).len() > 0,
        forall|i: int| 0 <= i < decimal(n).len() ==> is_digit(#[trigger] decimal(n)[i]),
        value(decimal(n)) == n,
    decreases n,
{
    if n < 10 {
        reveal_with_fuel(value, 2);
        assert(decimal(n).drop_last() =~= Seq::empty());
    } else {
        lemma_decimal_digits(n / 10);
        assert(decimal(n).drop_last() =~= decimal(n / 10));
        assert forall|i: int| 0 <= i < decimal(n).len() implies is_digit(
            #[trigger] decimal(n)[i],
        ) by {
            if i < decimal(n / 10).len() {
                assert(decimal(n)[i] == decimal(n / 10)[i]);
            }
        }
    }
}

/// Reading the decimal digits of a number gives the number back.
pub proof fn law_decimal_reads_back(n: nat)
    ensures
        number(decimal(n)) == Some(n),
{
    lemma_decimal_digits(n);
    assert(is_digit(decimal(n)[0]));
    assert(unsigned(decimal(n)) == decimal(n));
}

/// `n` spaces.
pub open spec fn spaces(n: int) -> Seq<char> {
    Seq::new(
        if n > 0 {
            n as nat
        } else {
            0
        },
        |i: int| ' ',
    )
}

/// `s` with as many spaces after it as it lacks of `width` characters.
pub open spec fn pad_right(s: Seq<char>, width: nat) -> Seq<char> {
    s + spaces(width - s.len())
}

/// `s` with as many spaces before it as it lacks of `width` characters.
pub open spec fn pad_left(s: Seq<char>, width: nat) -> Seq<char> {
    spaces(width - s.len()) + s
}

/// As many spaces as `s` lacks of `width` characters.
fn padding(s: &str, width: usize) -> (r: String)
    ensures
        r@ == spaces(width - s@.len()),
{
    let n = s.unicode_len();
    let mut out = String::new();
    let mut i: usize = n;
    assert(out@ =~= spaces(0));
    while i < width
        invariant
            n == s@.len(),
            n <= i,
            n <= width ==> i <= width,
            n > width ==> i == n,
            out@ == spaces(i - n),
        decreases width - i,
    {
        out.push(' ');
        assert(out@ =~= spaces(i + 1 - n));
        i = i + 1;
    }
    assert(out@ =~= spaces(width - s@.len()));
    out
}

/// `s` with as many spaces after it as it lacks of `width` characters.
pub fn padded_right(s: &str, width: usize) -> (r: String)
    ensures
        r@ == pad_right(s@, width as nat),
{
    let mut out = s.to_owned();
    out.append(&padding(s, width));
    out
}

/// `s` with as many spaces before it as it lacks of `width` characters.
pub fn padded_left(s: &str, width: usize) -> (r: String)
    ensures
        r@ == pad_left(s@, width as nat),
{
    let mut out = padding(s, width);
    out.append(s);
    out
}

/// Parts are joined from the left: the first stands alone, and each further one follows a
/// separator.
pub proof fn law_join(parts: Seq<Seq<char>>, part: Seq<char>, sep: Seq<char>)
    ensures
        join(Seq::empty(), sep) == Seq::<char>::empty(),
        join(parts.push(part), sep) == if parts.len() == 0 {
            part
        } else {
            join(parts, sep) + sep + part
        },
{
    let f = |p: Seq<char>| sep + p;
    let all = parts.push(part);
    if parts.len() == 0 {
        assert(all.skip(1).map_values(f) =~= Seq::empty());
        assert(Seq::<Seq<char>>::empty().flatten() =~= Seq::empty());
        assert(join(all, sep) =~= part);
    } else {
        let tail = parts.skip(1).map_values(f);
        assert(all.skip(1).map_values(f) =~= tail.push(sep + part));
        tail.lemma_flatten_push(sep + part);
        assert(parts[0] + (tail.flatten() + (sep + part)) =~= parts[0] + tail.flatten() + sep
            + part);
    }
}

/// Each part is written and then ended.
pub proof fn law_each_ended(parts: Seq<Seq<char>>, part: Seq<char>, end: char)
    ensures
        each_ended(Seq::empty(), end) == Seq::<char>::empty(),
        each_ended(parts.push(part), end) == each_ended(parts, end) + part + seq![end],
{
    let f = |p: Seq<char>| p.push(end);
    assert(Seq::<Seq<char>>::empty().map_values(f) =~= Seq::empty());
    assert(Seq::<Seq<char>>::empty().flatten() =~= Seq::empty());
    assert(parts.push(part).map_values(f) =~= parts.map_values(f).push(part.push(end)));
    parts.map_values(f).lemma_flatten_push(part.push(end));
    assert(each_ended(parts, end) + part.push(end) =~= each_ended(parts, end) + part + seq![end]);
}

/// A number is written digit by digit: the last digit is what is left over of tens, the digits
/// before it write down the tens, and there are none before a single digit.
pub proof fn law_decimal_digit_by_digit(n: nat)
    ensures
        decimal(n).len() > 0,
        decimal(n).last() as int == '0' as int + n % 10,
        n < 10 ==> decimal(n).len() == 1,
        n >= 10 ==> decimal(n).drop_last() == decimal(n / 10),
{
    if n >= 10 {
        assert(decimal(n).drop_last() =~= decimal(n / 10));
    }
}

/// A number is read digit by digit, with or without a plus sign before it; anything else is no
/// number.
pub proof fn law_number_digit_by_digit(s: Seq<char>, c: char)
    ensures
        number(Seq::empty()) is None,
        number(seq!['+']) is None,
        number(seq![c]) is Some <==> '0' <= c <= '9',
        '0' <= c <= '9' ==> number(seq![c]) == Some((c as int - '0' as int) as nat),
        s.len() > 0 && s[0] != '+' ==> number(seq!['+'] + s) == number(s),
        s.len() > 0 && s[0] == '+' ==> number(seq!['+'] + s) is None,
        s.len() > 0 && s != seq!['+'] ==> (number(s.push(c)) is Some <==> number(s) is Some && '0'
            <= c <= '9'),
        number(s) is Some && '0' <= c <= '9' ==> number(s.push(c)) == Some(
            (number(s)->0 * 10 + (c as int - '0' as int)) as nat,
        ),
{
    let t = s.push(c);
    assert(unsigned(seq!['+']) =~= Seq::empty());
    reveal_with_fuel(value, 2);
    assert(seq![c].drop_last() =~= Seq::empty());
    if '0' <= c <= '9' {
        assert(unsigned(seq![c]) =~= seq![c]);
        assert(forall|i: int| 0 <= i < seq![c].len() ==> is_digit(#[trigger] seq![c][i]));
    }
    if number(seq![c]) is Some {
        assert(is_digit(unsigned(seq![c])[0]));
    }
    assert((seq!['+'] + s).skip(1) =~= s);
    if s.len() > 0 {
        if s[0] == '+' {
            assert(!is_digit(unsigned(seq!['+'] + s)[0]));
        }
        assert(unsigned(t) =~= unsigned(s).push(c));
        assert(unsigned(t).drop_last() =~= unsigned(s));
        if s != seq!['+'] {
            assert(unsigned(s).len() > 0) by {
                if unsigned(s).len() == 0 {
                    assert(s =~= seq!['+']);
                }
            }
        }
        if number(t) is Some {
            assert(is_digit(unsigned(t)[unsigned(s).len() as int]));
            assert forall|i: int| 0 <= i < unsigned(s).len() implies is_digit(
                #[trigger] unsigned(s)[i],
            ) by {
                assert(is_digit(unsigned(t)[i]));
            }
        }
        if number(s) is Some && '0' <= c <= '9' {
            assert forall|i: int| 0 <= i < unsigned(t).len() implies is_digit(
                #[trigger] unsigned(t)[i],
            ) by {
                if i < unsigned(s).len() {
                    assert(is_digit(unsigned(s)[i]));
                }
            }
        }
    }
}

/// Padding keeps the text, fills with spaces up to the width, and adds nothing to a text that
/// fills it.
pub proof fn law_padding(s: Seq<char>, width: nat)
    ensures
        pad_right(s, width).len() == if s.len() < width {
            width
        } else {
            s.len()
        },
        pad_right(s, width).take(s.len() as int) == s,
        forall|i: int|
            s.len() <= i < pad_right(s, width).len() ==> #[trigger] pad_right(s, width)[i] == ' ',
        pad_left(s, width).len() == pad_right(s, width).len(),
        pad_left(s, width).skip(pad_left(s, width).len() - s.len()) == s,
        forall|i: int|
            0 <= i < pad_left(s, width).len() - s.len() ==> #[trigger] pad_left(s, width)[i] == ' ',
{
    assert(pad_right(s, width).take(s.len() as int) =~= s);
    assert(pad_left(s, width).skip(pad_left(s, width).len() - s.len()) =~= s);
}

} // verus!
