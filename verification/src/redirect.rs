//! Redirections and pipes: what the words of a command line mean for its output.
use vstd::prelude::*;

use crate::split::{
    equals, lemma_nonempty_push, lemma_split_at, lemma_split_nonempty, lemma_split_pieces,
    lemma_split_push, lemma_split_whole, nonempty, split,
};
use crate::text::{same, texts};
use crate::words::{parse_command_with_quotes, words};

verus! {

/// Where the output of a command goes: for each stream that is redirected the file's
/// name, and whether the output is appended to the file.
#[derive(Debug, Clone)]
pub struct Redirection {
    pub stdout_target: Option<(String, bool)>,
    pub stderr_target: Option<(String, bool)>,
}

/// A file's name and whether output is appended to it.
pub open spec fn target(t: Option<(String, bool)>) -> Option<(Seq<char>, bool)> {
    match t {
        Some((name, append)) => Some((name@, append)),
        None => None,
    }
}

/// What a `Redirection` stands for.
pub struct RedirectionView {
    pub stdout_target: Option<(Seq<char>, bool)>,
    pub stderr_target: Option<(Seq<char>, bool)>,
}

impl View for Redirection {
    type V = RedirectionView;

    open spec fn view(&self) -> RedirectionView {
        RedirectionView {
            stdout_target: target(self.stdout_target),
            stderr_target: target(self.stderr_target),
        }
    }
}

/// The streams that a command can redirect.
#[derive(Clone, Copy, PartialEq, Eq, Structural)]
pub enum Stream {
    Stdout,
    Stderr,
}

/// Which stream a word redirects and whether it appends, if it is an operator.
pub open spec fn operator(word: Seq<char>) -> Option<(Stream, bool)> {
    if word == ">>"@ || word == "1>>"@ {
        Some((Stream::Stdout, true))
    } else if word == ">"@ || word == "1>"@ {
        Some((Stream::Stdout, false))
    } else if word == "2>>"@ {
        Some((Stream::Stderr, true))
    } else if word == "2>"@ {
        Some((Stream::Stderr, false))
    } else {
        None
    }
}

/// The words that remain once redirections are taken out, and the redirections.
///
/// Read from the left, an operator takes the word after it as the name of a file,
/// whatever that word is. An operator at the very end is an ordinary word. Of
/// several redirections of one stream the last one counts.
pub open spec fn redirect(tokens: Seq<Seq<char>>) -> (Seq<Seq<char>>, RedirectionView)
    decreases tokens.len(),
{
    if tokens.len() == 0 {
        (Seq::empty(), RedirectionView { stdout_target: None, stderr_target: None })
    } else {
        match operator(tokens[0]) {
            Some((stream, append)) if tokens.len() > 1 => {
                let (parts, r) = redirect(tokens.skip(2));
                (
                    parts,
                    if stream == Stream::Stdout && r.stdout_target is None {
                        RedirectionView { stdout_target: Some((tokens[1], append)), ..r }
                    } else if stream == Stream::Stderr && r.stderr_target is None {
                        RedirectionView { stderr_target: Some((tokens[1], append)), ..r }
                    } else {
                        r
                    },
                )
            },
            _ => {
                let (parts, r) = redirect(tokens.skip(1));
                (seq![tokens[0]] + parts, r)
            },
        }
    }
}

/// Which stream a word redirects and whether it appends, if it is an operator.
pub fn parse_operator(word: &str) -> (r: Option<(Stream, bool)>)
    ensures
        r == operator(word@),
{
    if same(word, ">>") || same(word, "1>>") {
        Some((Stream::Stdout, true))
    } else if same(word, ">") || same(word, "1>") {
        Some((Stream::Stdout, false))
    } else if same(word, "2>>") {
        Some((Stream::Stderr, true))
    } else if same(word, "2>") {
        Some((Stream::Stderr, false))
    } else {
        None
    }
}

/// `later` where it says something, else `earlier`.
spec fn or_earlier(
    later: Option<(Seq<char>, bool)>,
    earlier: Option<(Seq<char>, bool)>,
) -> Option<(Seq<char>, bool)> {
    if later is Some {
        later
    } else {
        earlier
    }
}

/// The words of a command line without its redirections, and the redirections.
pub fn parse_with_redirection(input: &str) -> (r: (Vec<String>, Redirection))
    ensures
        texts(r.0@) == redirect(words(input@)).0,
        r.1@ == redirect(words(input@)).1,
{
    let tokens = parse_command_with_quotes(input);
    let ghost all = texts(tokens@);
    let mut command_parts: Vec<String> = Vec::new();
    let mut redirection = Redirection { stdout_target: None, stderr_target: None };
    let mut i: usize = 0;
    proof {
        assert(all.skip(0) =~= all);
        assert(texts(command_parts@) + redirect(all).0 =~= redirect(all).0);
    }
    while i < tokens.len()
        invariant
            i <= tokens@.len(),
            all == texts(tokens@),
            redirect(all).0 == texts(command_parts@) + redirect(all.skip(i as int)).0,
            redirect(all).1.stdout_target == or_earlier(
                redirect(all.skip(i as int)).1.stdout_target,
                redirection@.stdout_target,
            ),
            redirect(all).1.stderr_target == or_earlier(
                redirect(all.skip(i as int)).1.stderr_target,
                redirection@.stderr_target,
            ),
        decreases tokens@.len() - i,
    {
        let ghost rest = all.skip(i as int);
        let ghost before = texts(command_parts@);
        assert(rest[0] == all[i as int]);
        let op = parse_operator(&tokens[i]);
        if op.is_some() && i + 1 < tokens.len() {
            assert(rest.skip(2) =~= all.skip(i + 2));
            assert(rest[1] == tokens@[i + 1]@);
            let (stream, append) = op.unwrap();
            let name = tokens[i + 1].clone();
            if stream == Stream::Stdout {
                redirection.stdout_target = Some((name, append));
            } else {
                redirection.stderr_target = Some((name, append));
            }
            i = i + 2;
        } else {
            assert(rest.skip(1) =~= all.skip(i + 1));
            command_parts.push(tokens[i].clone());
            assert(texts(command_parts@) =~= before.push(all[i as int]));
            assert(before.push(all[i as int]) + redirect(all.skip(i + 1)).0 =~= before + (
            seq![rest[0]] + redirect(all.skip(i + 1)).0));
            i = i + 1;
        }
    }
    assert(all.skip(i as int) =~= Seq::empty());
    assert(texts(command_parts@) + Seq::<Seq<char>>::empty() =~= texts(command_parts@));
    (command_parts, redirection)
}

/// The words of each command of a pipeline: the runs between bars, without the empty
/// ones.
pub open spec fn stages(parts: Seq<Seq<char>>) -> Seq<Seq<Seq<char>>> {
    nonempty(split(parts, equals("|"@)))
}

/// The characters of each word of each command.
pub open spec fn stage_texts(v: Seq<Vec<String>>) -> Seq<Seq<Seq<char>>> {
    Seq::new(v.len(), |i: int| texts(v[i]@))
}

/// Cuts the words of a command line at its bars.
pub fn split_by_pipes(parts: &[String]) -> (pipelines: Vec<Vec<String>>)
    ensures
        stage_texts(pipelines@) == stages(texts(parts@)),
{
    let mut pipelines: Vec<Vec<String>> = Vec::new();
    let mut current: Vec<String> = Vec::new();
    let ghost all = texts(parts@);
    let ghost bar = equals("|"@);
    let mut i: usize = 0;
    proof {
        reveal(Seq::filter);
        assert(all.take(0) =~= Seq::empty());
        assert(texts(current@) =~= Seq::empty());
        assert(split(all.take(0), bar).drop_last() =~= Seq::empty());
        assert(stage_texts(pipelines@) =~= nonempty(Seq::<Seq<Seq<char>>>::empty()));
    }
    while i < parts.len()
        invariant
            i <= parts@.len(),
            all == texts(parts@),
            bar == equals("|"@),
            stage_texts(pipelines@) == nonempty(split(all.take(i as int), bar).drop_last()),
            texts(current@) == split(all.take(i as int), bar).last(),
        decreases parts@.len() - i,
    {
        let ghost p = split(all.take(i as int), bar);
        let ghost before = stage_texts(pipelines@);
        let ghost stage = texts(current@);
        proof {
            lemma_split_push(all.take(i as int), all[i as int], bar);
            assert(all.take(i + 1) =~= all.take(i as int).push(all[i as int]));
            assert(p =~= p.drop_last().push(p.last()));
            lemma_nonempty_push(p.drop_last(), p.last());
        }
        if same(&parts[i], "|") {
            assert(p.push(Seq::empty()).drop_last() =~= p);
            if !current.is_empty() {
                pipelines.push(current);
                current = Vec::new();
                assert(stage_texts(pipelines@) =~= before.push(stage));
            }
            assert(texts(current@) =~= Seq::empty());
        } else {
            let ghost q = p.drop_last().push(p.last().push(all[i as int]));
            assert(q.drop_last() =~= p.drop_last());
            current.push(parts[i].clone());
            assert(texts(current@) =~= stage.push(all[i as int]));
        }
        i = i + 1;
    }
    proof {
        assert(all.take(i as int) =~= all);
        lemma_split_nonempty(all, bar);
        let p = split(all, bar);
        assert(p =~= p.drop_last().push(p.last()));
        lemma_nonempty_push(p.drop_last(), p.last());
    }
    let ghost before = stage_texts(pipelines@);
    let ghost stage = texts(current@);
    if !current.is_empty() {
        pipelines.push(current);
        assert(stage_texts(pipelines@) =~= before.push(stage));
    }
    pipelines
}

/// Whether no word but the last is an operator.
pub open spec fn no_operator_before_end(tokens: Seq<Seq<char>>) -> bool {
    forall|i: int| 0 <= i < tokens.len() - 1 ==> operator(#[trigger] tokens[i]) is None
}

/// The words stay as they are exactly where no word but the last is an operator, and exactly
/// there nothing is redirected.
pub proof fn law_no_operator_no_redirection(tokens: Seq<Seq<char>>)
    ensures
        redirect(tokens).0 == tokens <==> no_operator_before_end(tokens),
        redirect(tokens).1.stdout_target is None && redirect(tokens).1.stderr_target is None
            <==> no_operator_before_end(tokens),
        redirect(tokens).0.len() <= tokens.len(),
    decreases tokens.len(),
{
    if tokens.len() == 0 {
        assert(redirect(tokens).0 =~= tokens);
    } else if operator(tokens[0]) is Some && tokens.len() > 1 {
        law_no_operator_no_redirection(tokens.skip(2));
        assert(!no_operator_before_end(tokens));
    } else {
        let rest = tokens.skip(1);
        law_no_operator_no_redirection(rest);
        assert(seq![tokens[0]] + rest =~= tokens);
        if redirect(tokens).0 == tokens {
            assert((seq![tokens[0]] + redirect(rest).0).skip(1) =~= redirect(rest).0);
        }
        if no_operator_before_end(tokens) {
            assert forall|i: int| 0 <= i < rest.len() - 1 implies operator(
                #[trigger] rest[i],
            ) is None by {
                assert(rest[i] == tokens[i + 1]);
            }
        }
        if no_operator_before_end(rest) {
            assert forall|i: int| 0 <= i < tokens.len() - 1 implies operator(
                #[trigger] tokens[i],
            ) is None by {
                if i > 0 {
                    assert(tokens[i] == rest[i - 1]);
                }
            }
        }
    }
}

/// An operator remains among the words of a command only as the last of them.
pub proof fn law_operator_remains_only_at_the_end(tokens: Seq<Seq<char>>)
    ensures
        forall|i: int|
            0 <= i < redirect(tokens).0.len() - 1 ==> operator(
                #[trigger] redirect(tokens).0[i],
            ) is None,
        redirect(tokens).0.len() > 0 && operator(redirect(tokens).0.last()) is Some
            ==> redirect(tokens).0.last() == tokens.last(),
    decreases tokens.len(),
{
    if tokens.len() > 0 {
        let n: int = if operator(tokens[0]) is Some && tokens.len() > 1 {
            2
        } else {
            1
        };
        law_operator_remains_only_at_the_end(tokens.skip(n));
        let rest = redirect(tokens.skip(n)).0;
        if tokens.len() > n {
            assert(tokens.skip(n).last() == tokens.last());
        } else {
            assert(tokens.skip(n) =~= Seq::empty());
        }
        if n == 1 {
            let parts = redirect(tokens).0;
            assert(parts =~= seq![tokens[0]] + rest);
            assert forall|i: int| 0 <= i < parts.len() - 1 implies operator(
                #[trigger] parts[i],
            ) is None by {
                if i > 0 {
                    assert(parts[i] == rest[i - 1]);
                }
            }
            if rest.len() > 0 {
                assert(parts.last() == rest.last());
            }
        }
    }
}

/// Of several redirections of one stream the last one counts: a redirection at the
/// front sets its stream's target only where what follows does not, and it leaves
/// the words and the other stream alone.
pub proof fn law_later_redirection_counts(op: Seq<char>, name: Seq<char>, rest: Seq<Seq<char>>)
    requires
        operator(op) is Some,
    ensures
        redirect(seq![op, name] + rest).0 == redirect(rest).0,
        (operator(op)->0).0 == Stream::Stdout ==> redirect(seq![op, name] + rest).1.stdout_target
            == if redirect(rest).1.stdout_target is Some {
            redirect(rest).1.stdout_target
        } else {
            Some((name, (operator(op)->0).1))
        },
        (operator(op)->0).0 == Stream::Stdout ==> redirect(seq![op, name] + rest).1.stderr_target
            == redirect(rest).1.stderr_target,
        (operator(op)->0).0 == Stream::Stderr ==> redirect(seq![op, name] + rest).1.stderr_target
            == if redirect(rest).1.stderr_target is Some {
            redirect(rest).1.stderr_target
        } else {
            Some((name, (operator(op)->0).1))
        },
        (operator(op)->0).0 == Stream::Stderr ==> redirect(seq![op, name] + rest).1.stdout_target
            == redirect(rest).1.stdout_target,
{
    assert((seq![op, name] + rest).skip(2) =~= rest);
}

/// No command of a pipeline is empty, and none holds a bar.
pub proof fn law_stages_hold_no_bar(parts: Seq<Seq<char>>)
    ensures
        forall|i: int| 0 <= i < stages(parts).len() ==> (#[trigger] stages(parts)[i]).len() > 0,
        forall|i: int, j: int|
            0 <= i < stages(parts).len() && 0 <= j < stages(parts)[i].len() ==> #[trigger] stages(
                parts,
            )[i][j] != "|"@,
{
    let p = split(parts, equals("|"@));
    let test = |q: Seq<Seq<char>>| q.len() > 0;
    lemma_split_pieces(parts, equals("|"@));
    assert forall|i: int| 0 <= i < stages(parts).len() implies (#[trigger] stages(parts)[i]).len()
        > 0 && p.contains(stages(parts)[i]) by {
        p.lemma_filter_pred(test, i);
        assert(p.filter(test).contains(p.filter(test)[i]));
        p.lemma_filter_contains_rev(test, stages(parts)[i]);
    }
    assert forall|i: int, j: int|
        0 <= i < stages(parts).len() && 0 <= j < stages(parts)[i].len() implies #[trigger] stages(
        parts,
    )[i][j] != "|"@ by {
        let k = choose|k: int| 0 <= k < p.len() && p[k] == stages(parts)[i];
        assert(!equals("|"@)(p[k][j]));
    }
}

/// Around a bar both sides are cut on their own.
pub proof fn law_stages_around_a_bar(a: Seq<Seq<char>>, b: Seq<Seq<char>>)
    ensures
        stages(a.push("|"@) + b) == stages(a) + stages(b),
{
    let bar = equals("|"@);
    lemma_split_at(a, "|"@, b, bar);
    Seq::filter_distributes_over_add(
        split(a, bar),
        split(b, bar),
        |p: Seq<Seq<char>>| p.len() > 0,
    );
}

/// Cutting at bars loses nothing but the bars: the words of the commands, one after
/// the other, are the words of the line that are no bars.
pub proof fn law_stages_keep_every_word(parts: Seq<Seq<char>>)
    ensures
        stages(parts).flatten() == parts.filter(|w: Seq<char>| w != "|"@),
{
    lemma_flatten_nonempty(split(parts, equals("|"@)));
    lemma_flatten_split(parts);
}

proof fn lemma_flatten_nonempty<T>(pieces: Seq<Seq<T>>)
    ensures
        nonempty(pieces).flatten() == pieces.flatten(),
    decreases pieces.len(),
{
    if pieces.len() > 0 {
        let p = pieces.drop_last();
        lemma_flatten_nonempty(p);
        assert(pieces =~= p.push(pieces.last()));
        lemma_nonempty_push(p, pieces.last());
        p.lemma_flatten_push(pieces.last());
        nonempty(p).lemma_flatten_push(pieces.last());
        if pieces.last().len() == 0 {
            assert(p.flatten() + pieces.last() =~= p.flatten());
        }
    } else {
        reveal(Seq::filter);
        assert(nonempty(pieces) =~= pieces);
    }
}

proof fn lemma_flatten_split(parts: Seq<Seq<char>>)
    ensures
        split(parts, equals("|"@)).flatten() == parts.filter(|w: Seq<char>| w != "|"@),
    decreases parts.len(),
{
    reveal(Seq::filter);
    let bar = equals("|"@);
    if parts.len() > 0 {
        let rest = parts.drop_last();
        lemma_flatten_split(rest);
        lemma_split_nonempty(rest, bar);
        let p = split(rest, bar);
        if parts.last() == "|"@ {
            p.lemma_flatten_push(Seq::empty());
            assert(p.flatten() + Seq::empty() =~= p.flatten());
        } else {
            p.drop_last().lemma_flatten_push(p.last());
            p.drop_last().lemma_flatten_push(p.last().push(parts.last()));
            assert(p =~= p.drop_last().push(p.last()));
            assert(p.drop_last().flatten() + p.last().push(parts.last()) =~= (
            p.drop_last().flatten() + p.last()).push(parts.last()));
        }
    } else {
        let none: Seq<Seq<Seq<char>>> = Seq::empty();
        none.lemma_flatten_push(Seq::empty());
        assert(none.push(Seq::empty()) =~= seq![Seq::empty()]);
        assert(none.flatten() =~= Seq::empty());
        assert(split(parts, bar).flatten() =~= parts.filter(|w: Seq<char>| w != "|"@));
    }
}

/// Which words are operators, and what they do: `>` and `1>` send the output to the file named
/// by the next word, `>>` and `1>>` append it there, `2>` and `2>>` do so with the error stream.
/// A later redirection of the same stream counts in place of this one.
pub proof fn law_operators_take_the_next_word(
    op: Seq<char>,
    name: Seq<char>,
    rest: Seq<Seq<char>>,
)
    ensures
        op == ">"@ || op == "1>"@ || op == ">>"@ || op == "1>>"@ ==> {
            let r = redirect(seq![op, name] + rest);
            &&& r.0 == redirect(rest).0
            &&& r.1.stderr_target == redirect(rest).1.stderr_target
            &&& r.1.stdout_target == if redirect(rest).1.stdout_target is Some {
                redirect(rest).1.stdout_target
            } else {
                Some((name, op == ">>"@ || op == "1>>"@))
            }
        },
        op == "2>"@ || op == "2>>"@ ==> {
            let r = redirect(seq![op, name] + rest);
            &&& r.0 == redirect(rest).0
            &&& r.1.stdout_target == redirect(rest).1.stdout_target
            &&& r.1.stderr_target == if redirect(rest).1.stderr_target is Some {
                redirect(rest).1.stderr_target
            } else {
                Some((name, op == "2>>"@))
            }
        },
{
    lemma_operators_differ();
    assert((seq![op, name] + rest).skip(2) =~= rest);
}

proof fn lemma_operators_differ()
    ensures
        ">"@.len() == 1 && ">>"@.len() == 2 && "1>"@.len() == 2 && "2>"@.len() == 2,
        "1>>"@.len() == 3 && "2>>"@.len() == 3,
        ">>"@ != "1>"@ && ">>"@ != "2>"@ && "1>"@ != "2>"@ && "1>>"@ != "2>>"@,
{
    reveal_strlit(">");
    reveal_strlit(">>");
    reveal_strlit("1>");
    reveal_strlit("2>");
    reveal_strlit("1>>");
    reveal_strlit("2>>");
    assert(">>"@[0] == '>' && "1>"@[0] == '1' && "2>"@[0] == '2');
    assert("1>>"@[0] == '1' && "2>>"@[0] == '2');
}

/// Every other word is part of the command, wherever it stands, and so is an operator that no
/// word follows.
pub proof fn law_other_words_stay(word: Seq<char>, rest: Seq<Seq<char>>)
    ensures
        word != ">"@ && word != "1>"@ && word != ">>"@ && word != "1>>"@ && word != "2>"@ && word
            != "2>>"@ || rest.len() == 0 ==> {
            &&& redirect(seq![word] + rest).0 == seq![word] + redirect(rest).0
            &&& redirect(seq![word] + rest).1.stdout_target == redirect(rest).1.stdout_target
            &&& redirect(seq![word] + rest).1.stderr_target == redirect(rest).1.stderr_target
        },
        redirect(Seq::empty()).0 == Seq::<Seq<char>>::empty(),
        redirect(Seq::empty()).1.stdout_target is None,
        redirect(Seq::empty()).1.stderr_target is None,
{
    assert((seq![word] + rest).skip(1) =~= rest);
}

/// Words without a bar among them are one command, and no words are none.
pub proof fn law_one_command_without_bars(parts: Seq<Seq<char>>)
    requires
        !parts.contains("|"@),
    ensures
        stages(parts) == if parts.len() > 0 {
            seq![parts]
        } else {
            Seq::empty()
        },
{
    let bar = equals("|"@);
    assert forall|i: int| 0 <= i < parts.len() implies !bar(#[trigger] parts[i]) by {
        assert(parts.contains(parts[i]));
    }
    lemma_split_whole(parts, bar);
    let none: Seq<Seq<Seq<char>>> = Seq::empty();
    lemma_nonempty_push(none, parts);
    reveal(Seq::filter);
    assert(none.push(parts) =~= seq![parts]);
    assert(nonempty(none) =~= Seq::empty());
    if parts.len() > 0 {
        assert(none.push(parts) =~= seq![parts]);
    }
}

} // verus!
