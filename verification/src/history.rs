//! The commands entered so far.
use vstd::prelude::*;
use vstd::slice::slice_subrange;
use vstd::string::*;

use crate::format::{
    decimal, decimal_text, each_ended, end_each, is_digit, number, pad_left, padded_left,
    parse_number, unsigned,
};
use crate::split::{
    equals, lemma_split_at, lemma_split_push, lemma_split_whole, lines, nonempty, nonempty_lines,
    split, strip_return,
};
use crate::text::{same, texts};

verus! {

/// The commands entered so far, and how many of them, from the first on, are known to stand
/// in a file.
pub struct History {
    entries: Vec<String>,
    last_appended: usize,
}

/// What a `History` stands for.
pub struct HistoryView {
    pub entries: Seq<Seq<char>>,
    pub last_appended: nat,
}

impl View for History {
    type V = HistoryView;

    closed spec fn view(&self) -> HistoryView {
        HistoryView {
            entries: texts(self.entries@),
            last_appended: self.last_appended as nat,
        }
    }
}

/// The entries that are not known to stand in a file.
pub open spec fn unsaved(h: HistoryView) -> Seq<Seq<char>> {
    h.entries.skip(h.last_appended as int)
}

/// The history once all of it stands in a file.
pub open spec fn saved(h: HistoryView) -> HistoryView {
    HistoryView { entries: h.entries, last_appended: h.entries.len() }
}

/// The history with one more command.
pub open spec fn pushed(h: HistoryView, command: Seq<char>) -> HistoryView {
    HistoryView { entries: h.entries.push(command), last_appended: h.last_appended }
}

/// The history with the lines of a file added; all of it counts as standing in a file.
pub open spec fn loaded(h: HistoryView, content: Seq<char>) -> HistoryView {
    saved(
        HistoryView {
            entries: h.entries + nonempty(lines(content)),
            last_appended: h.last_appended,
        },
    )
}

/// An entry as it is listed: its number in a column of its own, and the command.
pub open spec fn entry_line(n: nat, command: Seq<char>) -> Seq<char> {
    pad_left(decimal(n), 5) + "  "@ + command
}

/// The first of the entries that are listed: of `count` entries at the end, or of all.
pub open spec fn first_listed(total: nat, count: Option<usize>) -> nat {
    if count is Some && count->0 < total {
        (total - count->0) as nat
    } else {
        0
    }
}

/// The last `count` entries as they are listed, or all of them. Entries are numbered from
/// one.
pub open spec fn listing(entries: Seq<Seq<char>>, count: Option<usize>) -> Seq<Seq<char>> {
    let start = first_listed(entries.len(), count);
    Seq::new(
        (entries.len() - start) as nat,
        |i: int| entry_line((start + i + 1) as nat, entries[start + i]),
    )
}

impl History {
    /// Whether what is known to stand in a file is part of the history.
    pub open spec fn wf(&self) -> bool {
        self@.last_appended <= self@.entries.len()
    }

    /// A history without commands.
    pub fn new() -> (r: Self)
        ensures
            r.wf(),
            r@.entries == Seq::<Seq<char>>::empty(),
            r@.last_appended == 0,
    {
        let r = History { entries: Vec::new(), last_appended: 0 };
        assert(r@.entries =~= Seq::<Seq<char>>::empty());
        r
    }

    /// Takes in a command.
    pub fn push(&mut self, command: &str)
        requires
            old(self).wf(),
        ensures
            final(self).wf(),
            final(self)@ == pushed(old(self)@, command@),
    {
        let ghost before = self@.entries;
        self.entries.push(command.to_owned());
        assert(self@.entries =~= before.push(command@));
    }

    /// Takes in the lines of a file that are not empty.
    pub fn load(&mut self, content: &str)
        requires
            old(self).wf(),
        ensures
            final(self).wf(),
            final(self)@ == loaded(old(self)@, content@),
    {
        let mut list = nonempty_lines(content);
        let ghost added = texts(list@);
        let ghost before = self@.entries;
        self.entries.append(&mut list);
        self.last_appended = self.entries.len();
        assert(self@.entries =~= before + added);
    }

    /// What a file with the whole history holds: a line for each entry.
    pub fn file_text(&self) -> (r: String)
        ensures
            r@ == each_ended(self@.entries, '\n'),
    {
        end_each(&self.entries, '\n')
    }

    /// What a file with the whole history holds. From now on all entries count as standing in
    /// a file.
    pub fn take_all(&mut self) -> (r: String)
        ensures
            final(self).wf(),
            final(self)@ == saved(old(self)@),
            r@ == each_ended(old(self)@.entries, '\n'),
    {
        self.last_appended = self.entries.len();
        self.file_text()
    }

    /// What is to be added to a file that holds everything known to stand in one; nothing if
    /// there is no such entry. From now on these entries count as standing in a file.
    pub fn take_unsaved(&mut self) -> (r: Option<String>)
        requires
            old(self).wf(),
        ensures
            final(self).wf(),
            final(self)@ == saved(old(self)@),
            r is None <==> unsaved(old(self)@).len() == 0,
            r matches Some(text) ==> text@ == each_ended(unsaved(old(self)@), '\n'),
    {
        let start = self.last_appended;
        let end = self.entries.len();
        self.last_appended = end;
        if start < end {
            let rest = slice_subrange(self.entries.as_slice(), start, end);
            assert(texts(rest@) =~= unsaved(old(self)@));
            Some(end_each(rest, '\n'))
        } else {
            None
        }
    }

    /// The last `count` entries as they are listed, or all of them.
    pub fn list(&self, count: Option<usize>) -> (r: Vec<String>)
        ensures
            texts(r@) == listing(self@.entries, count),
    {
        let total = self.entries.len();
        let start: usize = match count {
            Some(n) => if n >= total {
                0
            } else {
                total - n
            },
            None => 0,
        };
        let ghost all = listing(self@.entries, count);
        let mut out: Vec<String> = Vec::new();
        let mut i: usize = start;
        while i < total
            invariant
                start <= i <= total,
                total == self.entries@.len(),
                start == first_listed(total as nat, count),
                all == listing(self@.entries, count),
                texts(out@) == all.take(i - start),
            decreases total - i,
        {
            let ghost before = texts(out@);
            let mut line = padded_left(&decimal_text(i + 1), 5);
            line.append("  ");
            line.append(&self.entries[i]);
            assert(line@ == all[i - start]);
            out.push(line);
            assert(texts(out@) =~= before.push(all[i - start]));
            assert(all.take(i - start + 1) =~= all.take(i - start).push(all[i - start]));
            i = i + 1;
        }
        assert(all.take(total - start) =~= all);
        out
    }
}

/// What a `history` command asks for.
pub enum HistoryRequest {
    /// Read the file and take in its lines.
    Read(String),
    /// Write the history to the file.
    Write(String),
    /// Append to the file what is not known to stand in one.
    Append(String),
    /// List the given number of entries, or all.
    Show(Option<usize>),
    /// Say what is wrong with the command.
    Refused(String),
}

/// Whether `r` is what the words of a `history` command ask for.
pub open spec fn asks_history(parts: Seq<Seq<char>>, r: HistoryRequest) -> bool {
    if parts.len() > 1 && parts[1] == "-r"@ {
        if parts.len() < 3 {
            r matches HistoryRequest::Refused(t) && t@
                == "history: -r: option requires an argument"@
        } else {
            r matches HistoryRequest::Read(path) && path@ == parts[2]
        }
    } else if parts.len() > 1 && parts[1] == "-w"@ {
        if parts.len() < 3 {
            r matches HistoryRequest::Refused(t) && t@
                == "history: -w: option requires an argument"@
        } else {
            r matches HistoryRequest::Write(path) && path@ == parts[2]
        }
    } else if parts.len() > 1 && parts[1] == "-a"@ {
        if parts.len() < 3 {
            r matches HistoryRequest::Refused(t) && t@
                == "history: -a: option requires an argument"@
        } else {
            r matches HistoryRequest::Append(path) && path@ == parts[2]
        }
    } else if parts.len() > 1 {
        match number(parts[1]) {
            Some(n) if n <= usize::MAX => r == HistoryRequest::Show(Some(n as usize)),
            _ => r matches HistoryRequest::Refused(t) && t@ == "history: "@ + parts[1]
                + ": numeric argument required"@,
        }
    } else {
        r == HistoryRequest::Show(None)
    }
}

/// What the words of a `history` command ask for.
pub fn parse_history(parts: &[String]) -> (r: HistoryRequest)
    ensures
        asks_history(texts(parts@), r),
{
    if parts.len() < 2 {
        return HistoryRequest::Show(None);
    }
    let option = parts[1].as_str();
    if same(option, "-r") {
        if parts.len() < 3 {
            HistoryRequest::Refused("history: -r: option requires an argument".to_owned())
        } else {
            HistoryRequest::Read(parts[2].clone())
        }
    } else if same(option, "-w") {
        if parts.len() < 3 {
            HistoryRequest::Refused("history: -w: option requires an argument".to_owned())
        } else {
            HistoryRequest::Write(parts[2].clone())
        }
    } else if same(option, "-a") {
        if parts.len() < 3 {
            HistoryRequest::Refused("history: -a: option requires an argument".to_owned())
        } else {
            HistoryRequest::Append(parts[2].clone())
        }
    } else {
        match parse_number(option) {
            Some(n) => HistoryRequest::Show(Some(n)),
            None => {
                let mut out = "history: ".to_owned();
                out.append(option);
                out.append(": numeric argument required");
                HistoryRequest::Refused(out)
            },
        }
    }
}

/// Whether an entry survives being written to a file and read back: it is not empty, holds
/// no line feed, and does not end with a carriage return.
pub open spec fn is_one_line(entry: Seq<char>) -> bool {
    &&& entry.len() > 0
    &&& !entry.contains('\n')
    &&& entry.last() != '\r'
}

proof fn lemma_each_ended_push(entries: Seq<Seq<char>>, entry: Seq<char>)
    ensures
        each_ended(entries.push(entry), '\n') == (each_ended(entries, '\n') + entry).push('\n'),
{
    let f = |p: Seq<char>| p.push('\n');
    assert(entries.push(entry).map_values(f) =~= entries.map_values(f).push(entry.push('\n')));
    entries.map_values(f).lemma_flatten_push(entry.push('\n'));
    assert(each_ended(entries, '\n') + entry.push('\n') =~= (each_ended(entries, '\n')
        + entry).push('\n'));
}

proof fn lemma_split_written(entries: Seq<Seq<char>>)
    requires
        forall|i: int| 0 <= i < entries.len() ==> !(#[trigger] entries[i]).contains('\n'),
    ensures
        split(each_ended(entries, '\n'), equals('\n')) == entries.push(Seq::empty()),
    decreases entries.len(),
{
    let sep = equals('\n');
    if entries.len() == 0 {
        assert(each_ended(entries, '\n') =~= Seq::empty());
        assert(seq![Seq::<char>::empty()] =~= entries.push(Seq::empty()));
    } else {
        let rest = entries.drop_last();
        let entry = entries.last();
        assert forall|i: int| 0 <= i < rest.len() implies !(#[trigger] rest[i]).contains('\n') by {
            assert(rest[i] == entries[i]);
        }
        lemma_split_written(rest);
        assert(entries =~= rest.push(entry));
        lemma_each_ended_push(rest, entry);
        assert(!entries[entries.len() - 1].contains('\n'));
        assert forall|i: int| 0 <= i < entry.len() implies !sep(#[trigger] entry[i]) by {
            assert(entry.contains(entry[i]));
        }
        lemma_split_whole(entry, sep);
        let written = each_ended(rest, '\n');
        lemma_split_push(written + entry, '\n', sep);
        if rest.len() == 0 {
            assert(written =~= Seq::empty());
            assert(written + entry =~= entry);
            assert(seq![entry].push(Seq::empty()) =~= entries.push(Seq::empty()));
        } else {
            lemma_each_ended_push(rest.drop_last(), rest.last());
            assert(rest =~= rest.drop_last().push(rest.last()));
            let text = each_ended(rest.drop_last(), '\n') + rest.last();
            assert(written == text.push('\n'));
            lemma_split_push(text, '\n', sep);
            lemma_split_at(text, '\n', entry, sep);
            assert(split(text, sep) =~= split(text, sep).push(Seq::empty()).drop_last());
            assert(rest =~= rest.push(Seq::empty()).drop_last());
            assert(rest + seq![entry] =~= entries);
        }
    }
}

proof fn lemma_all_nonempty(s: Seq<Seq<char>>)
    requires
        forall|i: int| 0 <= i < s.len() ==> (#[trigger] s[i]).len() > 0,
    ensures
        nonempty(s) == s,
    decreases s.len(),
{
    reveal(Seq::filter);
    if s.len() > 0 {
        let rest = s.drop_last();
        assert forall|i: int| 0 <= i < rest.len() implies (#[trigger] rest[i]).len() > 0 by {
            assert(rest[i] == s[i]);
        }
        lemma_all_nonempty(rest);
        assert(s[s.len() - 1].len() > 0);
        assert(rest.push(s.last()) =~= s);
    } else {
        assert(nonempty(s) =~= s);
    }
}

/// A history written to a file comes back when the file is read: loading the file's text
/// into an empty history gives the same entries.
pub proof fn law_written_history_reads_back(entries: Seq<Seq<char>>)
    requires
        forall|i: int| 0 <= i < entries.len() ==> is_one_line(#[trigger] entries[i]),
    ensures
        nonempty(lines(each_ended(entries, '\n'))) == entries,
        loaded(
            HistoryView { entries: Seq::empty(), last_appended: 0 },
            each_ended(entries, '\n'),
        ).entries == entries,
{
    assert forall|i: int| 0 <= i < entries.len() implies !(#[trigger] entries[i]).contains(
        '\n',
    ) by {
        assert(is_one_line(entries[i]));
    }
    lemma_split_written(entries);
    let p = split(each_ended(entries, '\n'), equals('\n'));
    assert(p.last().len() == 0);
    assert(lines(each_ended(entries, '\n')) =~= entries) by {
        assert forall|i: int| 0 <= i < entries.len() implies strip_return(p[i]) == entries[i] by {
            assert(is_one_line(entries[i]));
        }
    }
    assert forall|i: int| 0 <= i < entries.len() implies (#[trigger] entries[i]).len() > 0 by {
        assert(is_one_line(entries[i]));
    }
    lemma_all_nonempty(entries);
    assert(Seq::<Seq<char>>::empty() + entries =~= entries);
}

/// What is appended now, and what is appended after further commands, is together what
/// would have been appended at once; and right after appending there is nothing to append.
pub proof fn law_appending_repeats_nothing(h: HistoryView, commands: Seq<Seq<char>>)
    requires
        h.last_appended <= h.entries.len(),
    ensures
        unsaved(saved(h)).len() == 0,
        ({
            let later = HistoryView {
                entries: h.entries + commands,
                last_appended: saved(h).last_appended,
            };
            let at_once = HistoryView {
                entries: h.entries + commands,
                last_appended: h.last_appended,
            };
            &&& unsaved(later) == commands
            &&& each_ended(unsaved(h), '\n') + each_ended(unsaved(later), '\n') == each_ended(
                unsaved(at_once),
                '\n',
            )
        }),
{
    let all = h.entries + commands;
    assert(all.skip(h.entries.len() as int) =~= commands);
    assert(all.skip(h.last_appended as int) =~= unsaved(h) + commands);
    let f = |p: Seq<char>| p.push('\n');
    assert((unsaved(h) + commands).map_values(f) =~= unsaved(h).map_values(f)
        + commands.map_values(f));
    lemma_flatten_concat(unsaved(h).map_values(f), commands.map_values(f));
}

proof fn lemma_flatten_concat(a: Seq<Seq<char>>, b: Seq<Seq<char>>)
    ensures
        (a + b).flatten() == a.flatten() + b.flatten(),
    decreases b.len(),
{
    if b.len() == 0 {
        assert(a + b =~= a);
        assert(a.flatten() + b.flatten() =~= a.flatten());
    } else {
        let c = b.drop_last();
        lemma_flatten_concat(a, c);
        (a + c).lemma_flatten_push(b.last());
        c.lemma_flatten_push(b.last());
        assert((a + c).push(b.last()) =~= a + b);
        assert(c.push(b.last()) =~= b);
        assert(a.flatten() + c.flatten() + b.last() =~= a.flatten() + (c.flatten() + b.last()));
    }
}

/// The listing shows the last entries, as many as are asked for or all, in order. Each stands
/// behind its place in the whole history, counted from one, which takes up at least five
/// places.
pub proof fn law_listing(entries: Seq<Seq<char>>, count: Option<usize>, k: int)
    ensures
        ({
            let shown = listing(entries, count);
            let total = entries.len() as int;
            &&& count is None ==> shown.len() == total
            &&& count matches Some(n) ==> shown.len() == if n < total {
                n as int
            } else {
                total
            }
            &&& 0 <= k < shown.len() ==> {
                let place = total - shown.len() + k;
                let number = decimal((place + 1) as nat);
                let fill = Seq::new(
                    if number.len() < 5 {
                        (5 - number.len()) as nat
                    } else {
                        0
                    },
                    |i: int| ' ',
                );
                shown[k] == fill + number + "  "@ + entries[place]
            }
        }),
{
    let shown = listing(entries, count);
    let place = entries.len() - shown.len() + k;
    if 0 <= k < shown.len() {
        let number = decimal((place + 1) as nat);
        let fill = Seq::new(
            if number.len() < 5 {
                (5 - number.len()) as nat
            } else {
                0
            },
            |i: int| ' ',
        );
        assert(pad_left(number, 5) =~= fill + number);
    }
}

/// A command is added at the end and waits to be saved; the lines of a file are added at the
/// end, those that are not empty, and nothing waits to be saved then; saving changes no entry.
pub proof fn law_history_grows_at_the_end(
    h: HistoryView,
    command: Seq<char>,
    content: Seq<char>,
)
    requires
        h.last_appended <= h.entries.len(),
    ensures
        pushed(h, command).entries == h.entries.push(command),
        unsaved(pushed(h, command)) == unsaved(h).push(command),
        loaded(h, content).entries == h.entries + nonempty(lines(content)),
        unsaved(loaded(h, content)) == Seq::<Seq<char>>::empty(),
        saved(h).entries == h.entries,
        unsaved(saved(h)) == Seq::<Seq<char>>::empty(),
{
    assert(unsaved(pushed(h, command)) =~= unsaved(h).push(command));
    assert(unsaved(loaded(h, content)) =~= Seq::<Seq<char>>::empty());
    assert(unsaved(saved(h)) =~= Seq::<Seq<char>>::empty());
}

/// What a `history` command asks for, by its second word: with `-r`, `-w` and `-a` the file
/// named by the third word, or a complaint if there is none; with a number that many entries;
/// with any other word a complaint; without a second word all entries.
pub proof fn law_history_requests(parts: Seq<Seq<char>>, r: HistoryRequest)
    requires
        asks_history(parts, r),
    ensures
        parts.len() < 2 ==> r == HistoryRequest::Show(None),
        parts.len() == 2 && parts[1] == "-r"@ ==> (r matches HistoryRequest::Refused(t) && t@
            == "history: -r: option requires an argument"@),
        parts.len() == 2 && parts[1] == "-w"@ ==> (r matches HistoryRequest::Refused(t) && t@
            == "history: -w: option requires an argument"@),
        parts.len() == 2 && parts[1] == "-a"@ ==> (r matches HistoryRequest::Refused(t) && t@
            == "history: -a: option requires an argument"@),
        parts.len() > 2 && parts[1] == "-r"@ ==> (r matches HistoryRequest::Read(p) && p@
            == parts[2]),
        parts.len() > 2 && parts[1] == "-w"@ ==> (r matches HistoryRequest::Write(p) && p@
            == parts[2]),
        parts.len() > 2 && parts[1] == "-a"@ ==> (r matches HistoryRequest::Append(p) && p@
            == parts[2]),
        parts.len() > 1 && number(parts[1]) is Some && number(parts[1])->0 <= usize::MAX
            ==> r == HistoryRequest::Show(Some(number(parts[1])->0 as usize)),
        parts.len() > 1 && parts[1] != "-r"@ && parts[1] != "-w"@ && parts[1] != "-a"@ && !(number(
            parts[1],
        ) is Some && number(parts[1])->0 <= usize::MAX) ==> (r matches HistoryRequest::Refused(t)
            && t@ == "history: "@ + parts[1] + ": numeric argument required"@),
{
    reveal_strlit("-r");
    reveal_strlit("-w");
    reveal_strlit("-a");
    assert("-r"@[1] == 'r' && "-w"@[1] == 'w' && "-a"@[1] == 'a');
    if parts.len() > 1 && parts[1].len() == 2 && parts[1][0] == '-' {
        assert(unsigned(parts[1]) == parts[1]);
        assert(!is_digit(unsigned(parts[1])[0]));
    }
}

} // verus!
