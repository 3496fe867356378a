//! Cutting a command line into words, with quotes and backslashes.
use vstd::prelude::*;

use crate::split::{
    lemma_nonempty_push, lemma_split_at, lemma_split_nonempty, lemma_split_push,
    lemma_split_whole, nonempty, split,
};
use crate::text::{texts, to_chars};

verus! {

/// Which quotes are open at a place in a command line.
#[derive(Clone, Copy, PartialEq, Eq, Structural)]
pub enum Quoting {
    Plain,
    Single,
    Double,
}

/// Whether `c` separates words where it is not quoted.
pub open spec fn is_blank(c: char) -> bool {
    c == ' ' || c == '\t'
}

/// Whether a backslash in double quotes takes away the meaning of `c`.
pub open spec fn is_escapable(c: char) -> bool {
    c == '"' || c == '\\' || c == '$' || c == '`'
}

/// What a command line says, quotes removed: `Some(c)` for a character that belongs
/// to a word, `None` for a blank that separates words.
///
/// Outside quotes a backslash makes the next character part of a word, whatever it
/// is; at the end of the line it is dropped. In single quotes every character
/// stands for itself. In double quotes a backslash escapes `"`, `\`, `$` and the
/// backquote, removes a line feed together with itself, and stands for itself
/// otherwise. Quotes left open are closed by the end of the line.
pub open spec fn unquote(s: Seq<char>, q: Quoting) -> Seq<Option<char>>
    decreases s.len(),
{
    if s.len() == 0 {
        Seq::empty()
    } else {
        let c = s[0];
        let rest = s.skip(1);
        match q {
            Quoting::Plain => if c == '\'' {
                unquote(rest, Quoting::Single)
            } else if c == '"' {
                unquote(rest, Quoting::Double)
            } else if c == '\\' {
                if rest.len() == 0 {
                    Seq::empty()
                } else {
                    seq![Some(rest[0])] + unquote(rest.skip(1), Quoting::Plain)
                }
            } else if is_blank(c) {
                seq![None::<char>] + unquote(rest, Quoting::Plain)
            } else {
                seq![Some(c)] + unquote(rest, Quoting::Plain)
            },
            Quoting::Single => if c == '\'' {
                unquote(rest, Quoting::Plain)
            } else {
                seq![Some(c)] + unquote(rest, Quoting::Single)
            },
            Quoting::Double => if c == '"' {
                unquote(rest, Quoting::Plain)
            } else if c == '\\' && rest.len() > 0 && is_escapable(rest[0]) {
                seq![Some(rest[0])] + unquote(rest.skip(1), Quoting::Double)
            } else if c == '\\' && rest.len() > 0 && rest[0] == '\n' {
                unquote(rest.skip(1), Quoting::Double)
            } else {
                seq![Some(c)] + unquote(rest, Quoting::Double)
            },
        }
    }
}

/// The test whether an item separates words.
pub open spec fn gap() -> spec_fn(Option<char>) -> bool {
    |item: Option<char>| item is None
}

/// The characters of a run of items without gaps.
pub open spec fn letters(run: Seq<Option<char>>) -> Seq<char> {
    run.map_values(|item: Option<char>| item->0)
}

/// The words that a sequence of items holds: the runs between gaps, without the
/// empty ones.
pub open spec fn words_of(items: Seq<Option<char>>) -> Seq<Seq<char>> {
    nonempty(split(items, gap())).map_values(|run: Seq<Option<char>>| letters(run))
}

/// The words of a command line.
pub open spec fn words(line: Seq<char>) -> Seq<Seq<char>> {
    words_of(unquote(line, Quoting::Plain))
}

/// The words that are complete: all but what follows the last gap.
spec fn complete(items: Seq<Option<char>>) -> Seq<Seq<char>> {
    nonempty(split(items, gap()).drop_last()).map_values(
        |run: Seq<Option<char>>| letters(run),
    )
}

/// What follows the last gap.
spec fn open_word(items: Seq<Option<char>>) -> Seq<char> {
    letters(split(items, gap()).last())
}

proof fn lemma_items_empty()
    ensures
        complete(Seq::empty()) == Seq::<Seq<char>>::empty(),
        open_word(Seq::empty()) == Seq::<char>::empty(),
{
    reveal(Seq::filter);
    assert(split(Seq::empty(), gap()).drop_last() =~= Seq::empty());
    assert(complete(Seq::empty()) =~= Seq::<Seq<char>>::empty());
    assert(open_word(Seq::empty()) =~= Seq::<char>::empty());
}

proof fn lemma_items_push(items: Seq<Option<char>>, item: Option<char>)
    ensures
        item is Some ==> complete(items.push(item)) == complete(items),
        item is Some ==> open_word(items.push(item)) == open_word(items).push(item->0),
        item is None ==> open_word(items.push(item)) == Seq::<char>::empty(),
        item is None ==> complete(items.push(item)) == if open_word(items).len() > 0 {
            complete(items).push(open_word(items))
        } else {
            complete(items)
        },
{
    lemma_split_push(items, item, gap());
    let p = split(items, gap());
    if item is Some {
        let q = p.drop_last().push(p.last().push(item));
        assert(q.drop_last() =~= p.drop_last());
        assert(letters(p.last().push(item)) =~= letters(p.last()).push(item->0));
    } else {
        let q = p.push(Seq::empty());
        assert(q.drop_last() =~= p);
        assert(p =~= p.drop_last().push(p.last()));
        lemma_nonempty_push(p.drop_last(), p.last());
        assert(complete(items.push(item)) =~= if open_word(items).len() > 0 {
            complete(items).push(open_word(items))
        } else {
            complete(items)
        });
        assert(letters(Seq::empty()) =~= Seq::<char>::empty());
    }
}

proof fn lemma_items_end(items: Seq<Option<char>>)
    ensures
        words_of(items) == if open_word(items).len() > 0 {
            complete(items).push(open_word(items))
        } else {
            complete(items)
        },
{
    lemma_split_nonempty(items, gap());
    let p = split(items, gap());
    assert(p =~= p.drop_last().push(p.last()));
    lemma_nonempty_push(p.drop_last(), p.last());
    assert(words_of(items) =~= if open_word(items).len() > 0 {
        complete(items).push(open_word(items))
    } else {
        complete(items)
    });
}

/// The words of a command line.
pub fn parse_command_with_quotes(input: &str) -> (args: Vec<String>)
    ensures
        texts(args@) == words(input@),
{
    let chars = to_chars(input);
    let mut args: Vec<String> = Vec::new();
    let mut current = String::new();
    let mut quoting = Quoting::Plain;
    let mut i: usize = 0;
    let ghost mut items: Seq<Option<char>> = Seq::empty();
    proof {
        lemma_items_empty();
        assert(texts(args@) =~= complete(items));
        assert(chars@.skip(0) =~= chars@);
        assert(items + unquote(chars@, Quoting::Plain) =~= unquote(chars@, Quoting::Plain));
    }
    while i < chars.len()
        invariant
            i <= chars@.len(),
            items + unquote(chars@.skip(i as int), quoting) == unquote(chars@, Quoting::Plain),
            texts(args@) == complete(items),
            current@ == open_word(items),
        decreases chars@.len() - i,
    {
        let c = chars[i];
        let ghost here = chars@.skip(i as int);
        let ghost old_items = items;
        let ghost old_args = texts(args@);
        let ghost word = current@;
        proof {
            assert(here.skip(1) =~= chars@.skip(i + 1));
            assert(here[0] == c);
            if i + 1 < chars@.len() {
                assert(here.skip(1).skip(1) =~= chars@.skip(i + 2));
            }
        }
        if c == '\'' && quoting != Quoting::Double {
            quoting = if quoting == Quoting::Single {
                Quoting::Plain
            } else {
                Quoting::Single
            };
            i = i + 1;
        } else if c == '"' && quoting != Quoting::Single {
            quoting = if quoting == Quoting::Double {
                Quoting::Plain
            } else {
                Quoting::Double
            };
            i = i + 1;
        } else if c == '\\' && quoting == Quoting::Double && i + 1 < chars.len() && (chars[i + 1]
            == '"' || chars[i + 1] == '\\' || chars[i + 1] == '$' || chars[i + 1] == '`') {
            let next = chars[i + 1];
            current.push(next);
            proof {
                items = items.push(Some(next));
                lemma_items_push(old_items, Some(next));
                assert(old_items + (seq![Some(next)] + unquote(
                    chars@.skip(i + 2),
                    Quoting::Double,
                )) =~= items + unquote(chars@.skip(i + 2), Quoting::Double));
            }
            i = i + 2;
        } else if c == '\\' && quoting == Quoting::Double && i + 1 < chars.len() && chars[i + 1]
            == '\n' {
            i = i + 2;
        } else if c == '\\' && quoting == Quoting::Plain {
            if i + 1 < chars.len() {
                let next = chars[i + 1];
                current.push(next);
                proof {
                    items = items.push(Some(next));
                    lemma_items_push(old_items, Some(next));
                    assert(old_items + (seq![Some(next)] + unquote(
                        chars@.skip(i + 2),
                        Quoting::Plain,
                    )) =~= items + unquote(chars@.skip(i + 2), Quoting::Plain));
                }
                i = i + 2;
            } else {
                i = i + 1;
            }
        } else if (c == ' ' || c == '\t') && quoting == Quoting::Plain {
            if !current.as_str().is_empty() {
                args.push(current);
                current = String::new();
                assert(texts(args@) =~= old_args.push(word));
            }
            proof {
                items = items.push(None);
                lemma_items_push(old_items, None);
                assert(old_items + (seq![None::<char>] + unquote(
                    chars@.skip(i + 1),
                    Quoting::Plain,
                )) =~= items + unquote(chars@.skip(i + 1), Quoting::Plain));
            }
            i = i + 1;
        } else {
            current.push(c);
            proof {
                items = items.push(Some(c));
                lemma_items_push(old_items, Some(c));
                assert(old_items + (seq![Some(c)] + unquote(chars@.skip(i + 1), quoting)) =~= items
                    + unquote(chars@.skip(i + 1), quoting));
            }
            i = i + 1;
        }
    }
    proof {
        lemma_items_end(items);
        assert(items + unquote(chars@.skip(i as int), quoting) =~= items);
    }
    let ghost old_args = texts(args@);
    let ghost word = current@;
    if !current.as_str().is_empty() {
        args.push(current);
        assert(texts(args@) =~= old_args.push(word));
    }
    args
}

/// The items of a text in which every character belongs to a word.
pub open spec fn literal(w: Seq<char>) -> Seq<Option<char>> {
    w.map_values(|c: char| Some(c))
}

proof fn lemma_nonempty_single<T>(p: Seq<T>)
    requires
        p.len() > 0,
    ensures
        nonempty(seq![p]) == seq![p],
{
    reveal(Seq::filter);
    assert(Seq::<Seq<T>>::empty().push(p) =~= seq![p]);
    lemma_nonempty_push(Seq::<Seq<T>>::empty(), p);
    assert(nonempty(Seq::<Seq<T>>::empty()) =~= Seq::empty());
}

proof fn lemma_literal_word(w: Seq<char>)
    requires
        w.len() > 0,
    ensures
        words_of(literal(w)) == seq![w],
{
    lemma_split_whole(literal(w), gap());
    lemma_nonempty_single(literal(w));
    assert(letters(literal(w)) =~= w);
    assert(words_of(literal(w)) =~= seq![w]);
}

proof fn lemma_literal_words(w: Seq<char>, items: Seq<Option<char>>)
    requires
        w.len() > 0,
    ensures
        words_of(literal(w).push(None) + items) == seq![w] + words_of(items),
{
    lemma_split_at(literal(w), None, items, gap());
    lemma_split_whole(literal(w), gap());
    lemma_nonempty_single(literal(w));
    let p = split(items, gap());
    Seq::filter_distributes_over_add(
        seq![literal(w)],
        p,
        |run: Seq<Option<char>>| run.len() > 0,
    );
    assert(nonempty(seq![literal(w)] + p) == seq![literal(w)] + nonempty(p));
    assert(letters(literal(w)) =~= w);
    assert(words_of(literal(w).push(None) + items) =~= seq![w] + words_of(items));
}

/// A word is never empty: quotes with nothing between them make no word.
pub proof fn law_no_empty_word(line: Seq<char>)
    ensures
        forall|i: int| 0 <= i < words(line).len() ==> (#[trigger] words(line)[i]).len() > 0,
{
    let p = split(unquote(line, Quoting::Plain), gap());
    assert forall|i: int| 0 <= i < words(line).len() implies (#[trigger] words(line)[i]).len()
        > 0 by {
        p.lemma_filter_pred(|run: Seq<Option<char>>| run.len() > 0, i);
    }
}

/// Whether a line that starts inside the given quotes ends outside quotes, with no backslash
/// that waits for the next character.
pub open spec fn ends_plain(s: Seq<char>, q: Quoting) -> bool
    decreases s.len(),
{
    if s.len() == 0 {
        q == Quoting::Plain
    } else {
        let c = s[0];
        let rest = s.skip(1);
        match q {
            Quoting::Plain => if c == '\'' {
                ends_plain(rest, Quoting::Single)
            } else if c == '"' {
                ends_plain(rest, Quoting::Double)
            } else if c == '\\' {
                rest.len() > 0 && ends_plain(rest.skip(1), Quoting::Plain)
            } else {
                ends_plain(rest, Quoting::Plain)
            },
            Quoting::Single => if c == '\'' {
                ends_plain(rest, Quoting::Plain)
            } else {
                ends_plain(rest, Quoting::Single)
            },
            Quoting::Double => if c == '"' {
                ends_plain(rest, Quoting::Plain)
            } else if c == '\\' && rest.len() > 0 && (is_escapable(rest[0]) || rest[0] == '\n') {
                ends_plain(rest.skip(1), Quoting::Double)
            } else {
                ends_plain(rest, Quoting::Double)
            },
        }
    }
}

proof fn lemma_unquote_concat(a: Seq<char>, b: Seq<char>, q: Quoting)
    requires
        ends_plain(a, q),
    ensures
        unquote(a + b, q) == unquote(a, q) + unquote(b, Quoting::Plain),
    decreases a.len(),
{
    let tail = unquote(b, Quoting::Plain);
    if a.len() == 0 {
        assert(a + b =~= b);
        assert(Seq::<Option<char>>::empty() + tail =~= tail);
    } else {
        let c = a[0];
        let rest = a.skip(1);
        assert((a + b).skip(1) =~= rest + b);
        if rest.len() > 0 {
            assert((rest + b).skip(1) =~= rest.skip(1) + b);
            assert((rest + b)[0] == rest[0]);
        }
        let two = rest.len() > 0 && c == '\\' && (q == Quoting::Plain || q == Quoting::Double && (
        is_escapable(rest[0]) || rest[0] == '\n'));
        let next = if two {
            rest.skip(1)
        } else {
            rest
        };
        let after = if two {
            q
        } else if c == '\'' && q != Quoting::Double {
            if q == Quoting::Single {
                Quoting::Plain
            } else {
                Quoting::Single
            }
        } else if c == '"' && q != Quoting::Single {
            if q == Quoting::Double {
                Quoting::Plain
            } else {
                Quoting::Double
            }
        } else {
            q
        };
        if rest.len() == 0 {
            reveal_with_fuel(ends_plain, 2);
        }
        lemma_unquote_concat(next, b, after);
        let items = unquote(next, after);
        assert forall|x: Option<char>| #[trigger] (seq![x] + (items + tail)) == (seq![x] + items)
            + tail by {
            assert(seq![x] + (items + tail) =~= (seq![x] + items) + tail);
        }
    }
}

proof fn lemma_words_around_gap(a: Seq<Option<char>>, b: Seq<Option<char>>)
    ensures
        words_of(a.push(None) + b) == words_of(a) + words_of(b),
{
    lemma_split_at(a, None, b, gap());
    Seq::filter_distributes_over_add(
        split(a, gap()),
        split(b, gap()),
        |run: Seq<Option<char>>| run.len() > 0,
    );
    assert(words_of(a.push(None) + b) =~= words_of(a) + words_of(b));
}

/// Around a blank that is neither quoted nor escaped both sides are cut on their own.
pub proof fn law_words_around_a_blank(a: Seq<char>, blank: char, b: Seq<char>)
    requires
        ends_plain(a, Quoting::Plain),
        is_blank(blank),
    ensures
        words(a.push(blank) + b) == words(a) + words(b),
{
    let tail = seq![blank] + b;
    assert(a.push(blank) + b =~= a + tail);
    lemma_unquote_concat(a, tail, Quoting::Plain);
    assert(tail.skip(1) =~= b);
    let x = unquote(a, Quoting::Plain);
    let y = unquote(b, Quoting::Plain);
    assert(x + (seq![None::<char>] + y) =~= x.push(None) + y);
    lemma_words_around_gap(x, y);
}

/// `w` with a backslash before every character.
pub open spec fn escape(w: Seq<char>) -> Seq<char>
    decreases w.len(),
{
    if w.len() == 0 {
        Seq::empty()
    } else {
        seq!['\\', w[0]] + escape(w.skip(1))
    }
}

/// A command line that holds the given words: each escaped, with a space between.
pub open spec fn command_line(args: Seq<Seq<char>>) -> Seq<char>
    decreases args.len(),
{
    if args.len() == 0 {
        Seq::empty()
    } else if args.len() == 1 {
        escape(args[0])
    } else {
        escape(args[0]).push(' ') + command_line(args.skip(1))
    }
}

proof fn lemma_unquote_escape(w: Seq<char>, rest: Seq<char>)
    ensures
        unquote(escape(w) + rest, Quoting::Plain) == literal(w) + unquote(rest, Quoting::Plain),
    decreases w.len(),
{
    if w.len() == 0 {
        assert(escape(w) + rest =~= rest);
        assert(literal(w) + unquote(rest, Quoting::Plain) =~= unquote(rest, Quoting::Plain));
    } else {
        let s = escape(w) + rest;
        lemma_unquote_escape(w.skip(1), rest);
        assert(s.skip(1).skip(1) =~= escape(w.skip(1)) + rest);
        assert(seq![Some(w[0])] + (literal(w.skip(1)) + unquote(rest, Quoting::Plain))
            =~= literal(w) + unquote(rest, Quoting::Plain));
    }
}

/// Every list of words that are not empty can be written down: the command line made
/// of them, escaped, is cut into exactly these words.
pub proof fn law_escaped_words_come_back(args: Seq<Seq<char>>)
    requires
        forall|i: int| 0 <= i < args.len() ==> (#[trigger] args[i]).len() > 0,
    ensures
        words(command_line(args)) == args,
    decreases args.len(),
{
    if args.len() == 0 {
        lemma_items_empty();
        lemma_items_end(Seq::empty());
        assert(words(command_line(args)) =~= args);
    } else if args.len() == 1 {
        lemma_unquote_escape(args[0], Seq::empty());
        assert(escape(args[0]) + Seq::<char>::empty() =~= escape(args[0]));
        assert(literal(args[0]) + Seq::<Option<char>>::empty() =~= literal(args[0]));
        lemma_literal_word(args[0]);
        assert(args =~= seq![args[0]]);
    } else {
        let rest = command_line(args.skip(1));
        let tail = seq![' '] + rest;
        assert(escape(args[0]).push(' ') + rest =~= escape(args[0]) + tail);
        lemma_unquote_escape(args[0], tail);
        assert(tail.skip(1) =~= rest);
        let items = unquote(rest, Quoting::Plain);
        assert(literal(args[0]) + (seq![None::<char>] + items) =~= literal(args[0]).push(None)
            + items);
        lemma_literal_words(args[0], items);
        law_escaped_words_come_back(args.skip(1));
        assert(seq![args[0]] + args.skip(1) =~= args);
    }
}

proof fn lemma_unquote_single(w: Seq<char>)
    requires
        !w.contains('\''),
    ensures
        unquote(w.push('\''), Quoting::Single) == literal(w),
    decreases w.len(),
{
    let s = w.push('\'');
    if w.len() == 0 {
        reveal_with_fuel(unquote, 2);
        assert(s.skip(1) =~= Seq::empty());
        assert(literal(w) =~= Seq::empty());
    } else {
        assert(w[0] != '\'');
        assert(s.skip(1) =~= w.skip(1).push('\''));
        assert(!w.skip(1).contains('\'')) by {
            if w.skip(1).contains('\'') {
                let k = choose|k: int| 0 <= k < w.skip(1).len() && w.skip(1)[k] == '\'';
                assert(w[k + 1] == '\'');
            }
        }
        lemma_unquote_single(w.skip(1));
        assert(seq![Some(w[0])] + literal(w.skip(1)) =~= literal(w));
    }
}

/// Between single quotes every character stands for itself: blanks, double quotes
/// and backslashes too.
pub proof fn law_single_quotes_keep_everything(w: Seq<char>)
    requires
        w.len() > 0,
        !w.contains('\''),
    ensures
        words(seq!['\''] + w.push('\'')) == seq![w],
{
    let s = seq!['\''] + w.push('\'');
    assert(s.skip(1) =~= w.push('\''));
    lemma_unquote_single(w);
    lemma_literal_word(w);
}

proof fn lemma_unquote_double(w: Seq<char>)
    requires
        !w.contains('"'),
        !w.contains('\\'),
    ensures
        unquote(w.push('"'), Quoting::Double) == literal(w),
    decreases w.len(),
{
    let s = w.push('"');
    if w.len() == 0 {
        reveal_with_fuel(unquote, 2);
        assert(s.skip(1) =~= Seq::empty());
        assert(literal(w) =~= Seq::empty());
    } else {
        assert(w.contains(w[0]));
        assert(s.skip(1) =~= w.skip(1).push('"'));
        assert forall|c: char| w.skip(1).contains(c) implies w.contains(c) by {
            let k = choose|k: int| 0 <= k < w.skip(1).len() && w.skip(1)[k] == c;
            assert(w[k + 1] == c);
        }
        lemma_unquote_double(w.skip(1));
        assert(seq![Some(w[0])] + literal(w.skip(1)) =~= literal(w));
    }
}

/// Between double quotes every character stands for itself that is neither a double
/// quote nor a backslash.
pub proof fn law_double_quotes_keep_plain_text(w: Seq<char>)
    requires
        w.len() > 0,
        !w.contains('"'),
        !w.contains('\\'),
    ensures
        words(seq!['"'] + w.push('"')) == seq![w],
{
    let s = seq!['"'] + w.push('"');
    assert(s.skip(1) =~= w.push('"'));
    lemma_unquote_double(w);
    lemma_literal_word(w);
}

/// `w` with a backslash before every character that a backslash in double quotes takes the
/// meaning away from.
pub open spec fn escape_in_double(w: Seq<char>) -> Seq<char>
    decreases w.len(),
{
    if w.len() == 0 {
        Seq::empty()
    } else if is_escapable(w[0]) {
        seq!['\\', w[0]] + escape_in_double(w.skip(1))
    } else {
        seq![w[0]] + escape_in_double(w.skip(1))
    }
}

proof fn lemma_unquote_escaped_double(w: Seq<char>)
    ensures
        unquote(escape_in_double(w).push('"'), Quoting::Double) == literal(w),
    decreases w.len(),
{
    let s = escape_in_double(w).push('"');
    if w.len() == 0 {
        reveal_with_fuel(unquote, 2);
        assert(s.skip(1) =~= Seq::empty());
        assert(literal(w) =~= Seq::empty());
    } else {
        let rest = escape_in_double(w.skip(1)).push('"');
        lemma_unquote_escaped_double(w.skip(1));
        if is_escapable(w[0]) {
            assert(s.skip(1).skip(1) =~= rest);
        } else {
            assert(s.skip(1) =~= rest);
        }
        assert(seq![Some(w[0])] + literal(w.skip(1)) =~= literal(w));
    }
}

/// Between double quotes every text can be written down, with a backslash before each double
/// quote, backslash, dollar sign and backquote in it.
pub proof fn law_double_quotes_keep_escaped_text(w: Seq<char>)
    requires
        w.len() > 0,
    ensures
        words(seq!['"'] + escape_in_double(w).push('"')) == seq![w],
{
    let s = seq!['"'] + escape_in_double(w).push('"');
    assert(s.skip(1) =~= escape_in_double(w).push('"'));
    lemma_unquote_escaped_double(w);
    lemma_literal_word(w);
}

/// The items of a text in which only blanks have a meaning of their own.
pub open spec fn blanks_as_gaps(s: Seq<char>) -> Seq<Option<char>> {
    s.map_values(
        |c: char|
            if is_blank(c) {
                None
            } else {
                Some(c)
            },
    )
}

proof fn lemma_unquote_plain(s: Seq<char>)
    requires
        !s.contains('\''),
        !s.contains('"'),
        !s.contains('\\'),
    ensures
        unquote(s, Quoting::Plain) == blanks_as_gaps(s),
    decreases s.len(),
{
    if s.len() > 0 {
        assert(s.contains(s[0]));
        assert forall|c: char| s.skip(1).contains(c) implies s.contains(c) by {
            let k = choose|k: int| 0 <= k < s.skip(1).len() && s.skip(1)[k] == c;
            assert(s[k + 1] == c);
        }
        lemma_unquote_plain(s.skip(1));
        assert(blanks_as_gaps(s) =~= seq![blanks_as_gaps(s)[0]] + blanks_as_gaps(s.skip(1)));
    } else {
        assert(blanks_as_gaps(s) =~= Seq::empty());
    }
}

proof fn lemma_split_blanks(s: Seq<char>)
    ensures
        split(blanks_as_gaps(s), gap()) == split(s, |c: char| is_blank(c)).map_values(
            |run: Seq<char>| literal(run),
        ),
    decreases s.len(),
{
    let f = |run: Seq<char>| literal(run);
    let sep = |c: char| is_blank(c);
    if s.len() > 0 {
        let t = s.drop_last();
        lemma_split_blanks(t);
        lemma_split_nonempty(t, sep);
        assert(blanks_as_gaps(s).drop_last() =~= blanks_as_gaps(t));
        let p = split(t, sep);
        if is_blank(s.last()) {
            assert(p.push(Seq::empty()).map_values(f) =~= p.map_values(f).push(Seq::empty())) by {
                assert(literal(Seq::empty()) =~= Seq::<Option<char>>::empty());
            }
        } else {
            let last = p.last();
            assert(literal(last.push(s.last())) =~= literal(last).push(Some(s.last())));
            assert(p.map_values(f).last() == literal(last));
            assert(p.drop_last().push(last.push(s.last())).map_values(f) =~= p.map_values(
                f,
            ).drop_last().push(literal(last).push(Some(s.last()))));
        }
    } else {
        assert(literal(Seq::empty()) =~= Seq::<Option<char>>::empty());
        assert(blanks_as_gaps(s) =~= Seq::empty());
        assert(seq![Seq::<char>::empty()].map_values(f) =~= seq![Seq::<Option<char>>::empty()]);
    }
}

proof fn lemma_letters_nonempty(pieces: Seq<Seq<char>>)
    ensures
        nonempty(pieces.map_values(|run: Seq<char>| literal(run))).map_values(
            |run: Seq<Option<char>>| letters(run),
        ) == nonempty(pieces),
    decreases pieces.len(),
{
    reveal(Seq::filter);
    let f = |run: Seq<char>| literal(run);
    let g = |run: Seq<Option<char>>| letters(run);
    if pieces.len() > 0 {
        let p = pieces.drop_last();
        lemma_letters_nonempty(p);
        assert(pieces.map_values(f).drop_last() =~= p.map_values(f));
        assert(pieces.map_values(f) =~= p.map_values(f).push(literal(pieces.last())));
        lemma_nonempty_push(p.map_values(f), literal(pieces.last()));
        assert(pieces =~= p.push(pieces.last()));
        lemma_nonempty_push(p, pieces.last());
        assert(letters(literal(pieces.last())) =~= pieces.last());
        assert(nonempty(p.map_values(f)).push(literal(pieces.last())).map_values(g) =~= nonempty(
            p.map_values(f),
        ).map_values(g).push(pieces.last()));
    } else {
        assert(nonempty(pieces.map_values(f)).map_values(g) =~= nonempty(pieces));
    }
}

/// Without quotes and backslashes the words are the runs between spaces and tabs.
pub proof fn law_plain_words_are_runs_between_blanks(line: Seq<char>)
    requires
        !line.contains('\''),
        !line.contains('"'),
        !line.contains('\\'),
    ensures
        words(line) == nonempty(split(line, |c: char| c == ' ' || c == '\t')),
{
    lemma_unquote_plain(line);
    lemma_split_blanks(line);
    lemma_letters_nonempty(split(line, |c: char| is_blank(c)));
    assert((|c: char| is_blank(c)) =~= (|c: char| c == ' ' || c == '\t'));
}

/// A piece of what stands between double quotes.
pub enum Inner {
    /// A character that is neither a double quote nor a backslash.
    Char(char),
    /// A double quote, a backslash, a dollar sign or a backquote, behind a backslash.
    Escaped(char),
    /// A backslash and a character whose meaning it does not take away.
    Kept(char),
    /// A backslash and a line feed.
    Joined,
}

/// A piece of a command line.
pub enum Piece {
    /// A character without a meaning of its own.
    Char(char),
    /// A space or a tab.
    Blank(char),
    /// A character behind a backslash.
    Escaped(char),
    /// A text in single quotes.
    Single(Seq<char>),
    /// A text in double quotes.
    Double(Seq<Inner>),
}

/// How a command line ends.
pub enum LineEnd {
    /// With its last piece.
    Closed,
    /// With a backslash.
    Backslash,
    /// In single quotes that are left open.
    Single(Seq<char>),
    /// In double quotes that are left open, with or without a backslash at the very end.
    Double(Seq<Inner>, bool),
}

/// Whether a piece can stand between double quotes.
pub open spec fn inner_valid(p: Inner) -> bool {
    match p {
        Inner::Char(c) => c != '"' && c != '\\',
        Inner::Escaped(c) => c == '"' || c == '\\' || c == '$' || c == '`',
        Inner::Kept(c) => c != '"' && c != '\\' && c != '$' && c != '`' && c != '\n',
        Inner::Joined => true,
    }
}

/// How a piece between double quotes is written.
pub open spec fn inner_written(p: Inner) -> Seq<char> {
    match p {
        Inner::Char(c) => seq![c],
        Inner::Escaped(c) => seq!['\\', c],
        Inner::Kept(c) => seq!['\\', c],
        Inner::Joined => seq!['\\', '\n'],
    }
}

/// What a piece between double quotes says.
pub open spec fn inner_said(p: Inner) -> Seq<char> {
    match p {
        Inner::Char(c) => seq![c],
        Inner::Escaped(c) => seq![c],
        Inner::Kept(c) => seq!['\\', c],
        Inner::Joined => Seq::empty(),
    }
}

/// Whether all pieces can stand between double quotes.
pub open spec fn inners_valid(ps: Seq<Inner>) -> bool {
    forall|i: int| 0 <= i < ps.len() ==> inner_valid(#[trigger] ps[i])
}

/// How pieces between double quotes are written, one after the other.
pub open spec fn inners_written(ps: Seq<Inner>) -> Seq<char>
    decreases ps.len(),
{
    if ps.len() == 0 {
        Seq::empty()
    } else {
        inner_written(ps[0]) + inners_written(ps.skip(1))
    }
}

/// What pieces between double quotes say, one after the other.
pub open spec fn inners_said(ps: Seq<Inner>) -> Seq<char>
    decreases ps.len(),
{
    if ps.len() == 0 {
        Seq::empty()
    } else {
        inner_said(ps[0]) + inners_said(ps.skip(1))
    }
}

/// Whether a piece is what it claims to be.
pub open spec fn piece_valid(p: Piece) -> bool {
    match p {
        Piece::Char(c) => c != ' ' && c != '\t' && c != '\'' && c != '"' && c != '\\',
        Piece::Blank(c) => c == ' ' || c == '\t',
        Piece::Escaped(c) => true,
        Piece::Single(w) => !w.contains('\''),
        Piece::Double(ps) => inners_valid(ps),
    }
}

/// How a piece is written.
pub open spec fn piece_written(p: Piece) -> Seq<char> {
    match p {
        Piece::Char(c) => seq![c],
        Piece::Blank(c) => seq![c],
        Piece::Escaped(c) => seq!['\\', c],
        Piece::Single(w) => seq!['\''] + w + seq!['\''],
        Piece::Double(ps) => seq!['"'] + inners_written(ps) + seq!['"'],
    }
}

/// What a piece says: characters of a word, or a gap between words.
pub open spec fn piece_said(p: Piece) -> Seq<Option<char>> {
    match p {
        Piece::Char(c) => seq![Some(c)],
        Piece::Blank(c) => seq![None],
        Piece::Escaped(c) => seq![Some(c)],
        Piece::Single(w) => w.map_values(|c: char| Some(c)),
        Piece::Double(ps) => inners_said(ps).map_values(|c: char| Some(c)),
    }
}

/// How an ending is written.
pub open spec fn ending_written(e: LineEnd) -> Seq<char> {
    match e {
        LineEnd::Closed => Seq::empty(),
        LineEnd::Backslash => seq!['\\'],
        LineEnd::Single(w) => seq!['\''] + w,
        LineEnd::Double(ps, backslash) => if backslash {
            seq!['"'] + inners_written(ps) + seq!['\\']
        } else {
            seq!['"'] + inners_written(ps)
        },
    }
}

/// Whether an ending is what it claims to be.
pub open spec fn ending_valid(e: LineEnd) -> bool {
    match e {
        LineEnd::Closed => true,
        LineEnd::Backslash => true,
        LineEnd::Single(w) => !w.contains('\''),
        LineEnd::Double(ps, backslash) => inners_valid(ps),
    }
}

/// What an ending says.
pub open spec fn ending_said(e: LineEnd) -> Seq<char> {
    match e {
        LineEnd::Closed => Seq::empty(),
        LineEnd::Backslash => Seq::empty(),
        LineEnd::Single(w) => w,
        LineEnd::Double(ps, backslash) => if backslash {
            inners_said(ps).push('\\')
        } else {
            inners_said(ps)
        },
    }
}

/// A command line made of pieces and an ending.
pub open spec fn line_written(pieces: Seq<Piece>, e: LineEnd) -> Seq<char>
    decreases pieces.len(),
{
    if pieces.len() == 0 {
        ending_written(e)
    } else {
        piece_written(pieces[0]) + line_written(pieces.skip(1), e)
    }
}

/// What a command line made of pieces and an ending says.
pub open spec fn line_said(pieces: Seq<Piece>, e: LineEnd) -> Seq<Option<char>>
    decreases pieces.len(),
{
    if pieces.len() == 0 {
        ending_said(e).map_values(|c: char| Some(c))
    } else {
        piece_said(pieces[0]) + line_said(pieces.skip(1), e)
    }
}

proof fn lemma_unquote_inners(ps: Seq<Inner>, rest: Seq<char>)
    requires
        inners_valid(ps),
    ensures
        unquote(inners_written(ps) + rest, Quoting::Double) == literal(inners_said(ps)) + unquote(
            rest,
            Quoting::Double,
        ),
    decreases ps.len(),
{
    let tail = unquote(rest, Quoting::Double);
    if ps.len() == 0 {
        assert(inners_written(ps) + rest =~= rest);
        assert(literal(inners_said(ps)) + tail =~= tail);
    } else {
        let p = ps[0];
        let more = inners_written(ps.skip(1)) + rest;
        let s = inners_written(ps) + rest;
        assert forall|i: int| 0 <= i < ps.skip(1).len() implies inner_valid(
            #[trigger] ps.skip(1)[i],
        ) by {
            assert(ps.skip(1)[i] == ps[i + 1]);
        }
        lemma_unquote_inners(ps.skip(1), rest);
        assert(inner_valid(p));
        let said = literal(inners_said(ps.skip(1))) + tail;
        match p {
            Inner::Char(c) => {
                assert(s.skip(1) =~= more);
                assert(seq![Some(c)] + said =~= literal(inners_said(ps)) + tail);
            },
            Inner::Escaped(c) => {
                assert(s.skip(1).skip(1) =~= more);
                assert(seq![Some(c)] + said =~= literal(inners_said(ps)) + tail);
            },
            Inner::Kept(c) => {
                assert(s.skip(1) =~= seq![c] + more);
                assert((seq![c] + more).skip(1) =~= more);
                assert(unquote(seq![c] + more, Quoting::Double) == seq![Some(c)] + said);
                assert(seq![Some('\\')] + (seq![Some(c)] + said) =~= literal(inners_said(ps))
                    + tail);
            },
            Inner::Joined => {
                assert(s.skip(1).skip(1) =~= more);
                assert(said =~= literal(inners_said(ps)) + tail);
            },
        }
    }
}

proof fn lemma_unquote_single_then(w: Seq<char>, rest: Seq<char>)
    requires
        !w.contains('\''),
    ensures
        unquote(w + rest, Quoting::Single) == literal(w) + unquote(rest, Quoting::Single),
    decreases w.len(),
{
    let tail = unquote(rest, Quoting::Single);
    if w.len() == 0 {
        assert(w + rest =~= rest);
        assert(literal(w) + tail =~= tail);
    } else {
        assert(w.contains(w[0]));
        assert forall|c: char| w.skip(1).contains(c) implies w.contains(c) by {
            let k = choose|k: int| 0 <= k < w.skip(1).len() && w.skip(1)[k] == c;
            assert(w[k + 1] == c);
        }
        lemma_unquote_single_then(w.skip(1), rest);
        assert((w + rest).skip(1) =~= w.skip(1) + rest);
        assert(seq![Some(w[0])] + (literal(w.skip(1)) + tail) =~= literal(w) + tail);
    }
}

proof fn lemma_unquote_piece(p: Piece, rest: Seq<char>)
    requires
        piece_valid(p),
    ensures
        unquote(piece_written(p) + rest, Quoting::Plain) == piece_said(p) + unquote(
            rest,
            Quoting::Plain,
        ),
{
    let s = piece_written(p) + rest;
    match p {
        Piece::Char(c) => {
            assert(s.skip(1) =~= rest);
        },
        Piece::Blank(c) => {
            assert(s.skip(1) =~= rest);
        },
        Piece::Escaped(c) => {
            assert(s.skip(1).skip(1) =~= rest);
        },
        Piece::Single(w) => {
            let close = seq!['\''] + rest;
            assert(s.skip(1) =~= w + close);
            lemma_unquote_single_then(w, close);
            assert(close.skip(1) =~= rest);
            assert(piece_said(p) =~= literal(w));
        },
        Piece::Double(ps) => {
            let close = seq!['"'] + rest;
            assert(s.skip(1) =~= inners_written(ps) + close);
            lemma_unquote_inners(ps, close);
            assert(close.skip(1) =~= rest);
            assert(piece_said(p) =~= literal(inners_said(ps)));
        },
    }
}

proof fn lemma_unquote_ending(e: LineEnd)
    requires
        ending_valid(e),
    ensures
        unquote(ending_written(e), Quoting::Plain) == literal(ending_said(e)),
{
    let s = ending_written(e);
    let none: Seq<char> = Seq::empty();
    assert(literal(none) =~= Seq::empty());
    match e {
        LineEnd::Closed => {},
        LineEnd::Backslash => {},
        LineEnd::Single(w) => {
            assert(s.skip(1) =~= w + none);
            lemma_unquote_single_then(w, none);
            assert(literal(w) + unquote(none, Quoting::Single) =~= literal(w));
        },
        LineEnd::Double(ps, backslash) => {
            let rest = if backslash {
                seq!['\\']
            } else {
                none
            };
            assert(s.skip(1) =~= inners_written(ps) + rest);
            lemma_unquote_inners(ps, rest);
            if backslash {
                assert(rest.skip(1) =~= none);
                assert(unquote(none, Quoting::Double) =~= Seq::empty());
                assert(unquote(rest, Quoting::Double) =~= seq![Some('\\')]);
                assert(literal(inners_said(ps)) + seq![Some('\\')] =~= literal(ending_said(e)));
            } else {
                assert(literal(inners_said(ps)) + unquote(rest, Quoting::Double) =~= literal(
                    ending_said(e),
                ));
            }
        },
    }
}

proof fn lemma_unquote_line(pieces: Seq<Piece>, e: LineEnd)
    requires
        forall|i: int| 0 <= i < pieces.len() ==> piece_valid(#[trigger] pieces[i]),
        ending_valid(e),
    ensures
        unquote(line_written(pieces, e), Quoting::Plain) == line_said(pieces, e),
    decreases pieces.len(),
{
    if pieces.len() == 0 {
        lemma_unquote_ending(e);
        assert(line_said(pieces, e) =~= literal(ending_said(e)));
    } else {
        let rest = pieces.skip(1);
        assert forall|i: int| 0 <= i < rest.len() implies piece_valid(#[trigger] rest[i]) by {
            assert(rest[i] == pieces[i + 1]);
        }
        lemma_unquote_line(rest, e);
        assert(piece_valid(pieces[0]));
        lemma_unquote_piece(pieces[0], line_written(rest, e));
    }
}

/// A command line says what its pieces say, one after the other: characters without a meaning
/// of their own and characters behind a backslash stand for themselves, and so does everything
/// in single quotes; in double quotes a backslash gives way before a double quote, a
/// backslash, a dollar sign and a backquote, disappears together with a line feed, and stays
/// before anything else; spaces and tabs outside quotes are gaps. Quotes left open count as
/// closed at the end of the line, and a backslash at its end stays in double quotes only. The
/// words are the runs between gaps, without the empty ones.
pub proof fn law_line_says_what_its_pieces_say(pieces: Seq<Piece>, e: LineEnd)
    requires
        forall|i: int| 0 <= i < pieces.len() ==> piece_valid(#[trigger] pieces[i]),
        ending_valid(e),
    ensures
        words(line_written(pieces, e)) == words_of(line_said(pieces, e)),
{
    lemma_unquote_line(pieces, e);
}

/// Items are cut into words at their gaps: without a gap they are one word, or none if there
/// are none, and around a gap both sides are cut on their own.
pub proof fn law_words_are_runs_between_gaps(
    word: Seq<char>,
    a: Seq<Option<char>>,
    b: Seq<Option<char>>,
)
    ensures
        words_of(word.map_values(|c: char| Some(c))) == if word.len() > 0 {
            seq![word]
        } else {
            Seq::empty()
        },
        words_of(a + seq![None] + b) == words_of(a) + words_of(b),
{
    assert(word.map_values(|c: char| Some(c)) =~= literal(word));
    if word.len() > 0 {
        lemma_literal_word(word);
    } else {
        lemma_items_empty();
        lemma_items_end(Seq::empty());
        assert(literal(word) =~= Seq::empty());
    }
    assert(a + seq![None] + b =~= a.push(None) + b);
    lemma_words_around_gap(a, b);
}

/// Between double quotes a backslash stays in the word, together with the character after it,
/// unless that is a double quote, a backslash, a dollar sign, a backquote or a line feed.
pub proof fn law_backslash_stays_in_double_quotes(u: Seq<char>, c: char, v: Seq<char>)
    requires
        !u.contains('"'),
        !u.contains('\\'),
        !v.contains('"'),
        !v.contains('\\'),
        c != '"' && c != '\\' && c != '$' && c != '`' && c != '\n',
    ensures
        words(seq!['"'] + u + seq!['\\', c] + v + seq!['"']) == seq![u + seq!['\\', c] + v],
{
    let s = seq!['"'] + u + seq!['\\', c] + v + seq!['"'];
    let said = u + seq!['\\', c] + v;
    let close = seq!['"'];
    let after = v + close;
    let middle = seq!['\\', c] + after;
    assert(s.skip(1) =~= u + middle);
    lemma_unquote_double_then(u, middle);
    assert(middle.skip(1) =~= seq![c] + after);
    assert((seq![c] + after).skip(1) =~= after);
    lemma_unquote_double_then(v, close);
    assert(close.skip(1) =~= Seq::empty());
    assert(unquote(Seq::empty(), Quoting::Plain) =~= Seq::empty());
    assert(unquote(close, Quoting::Double) == Seq::<Option<char>>::empty());
    let x = unquote(after, Quoting::Double);
    assert(unquote(seq![c] + after, Quoting::Double) == seq![Some(c)] + x);
    assert(unquote(middle, Quoting::Double) == seq![Some('\\')] + (seq![Some(c)] + x));
    assert(s[0] == '"');
    assert(unquote(s, Quoting::Plain) == unquote(s.skip(1), Quoting::Double));
    assert(literal(u) + (seq![Some('\\')] + (seq![Some(c)] + (literal(v) + Seq::empty())))
        =~= literal(said));
    lemma_literal_word(said);
}

proof fn lemma_unquote_double_then(w: Seq<char>, rest: Seq<char>)
    requires
        !w.contains('"'),
        !w.contains('\\'),
    ensures
        unquote(w + rest, Quoting::Double) == literal(w) + unquote(rest, Quoting::Double),
    decreases w.len(),
{
    let tail = unquote(rest, Quoting::Double);
    if w.len() == 0 {
        assert(w + rest =~= rest);
        assert(literal(w) + tail =~= tail);
    } else {
        assert(w.contains(w[0]));
        assert forall|c: char| w.skip(1).contains(c) implies w.contains(c) by {
            let k = choose|k: int| 0 <= k < w.skip(1).len() && w.skip(1)[k] == c;
            assert(w[k + 1] == c);
        }
        lemma_unquote_double_then(w.skip(1), rest);
        assert((w + rest).skip(1) =~= w.skip(1) + rest);
        assert(seq![Some(w[0])] + (literal(w.skip(1)) + tail) =~= literal(w) + tail);
    }
}

} // verus!
