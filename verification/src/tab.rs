//! What pressing the tab key does: insert, ring, or list the matches.
use vstd::prelude::*;
use vstd::string::*;
use vstd::utf8::*;

use crate::builtins::{builtin_names, builtins, lemma_builtin_names_distinct};
use crate::format::{join, join_texts};
use crate::order::{
    key_of, law_sort_keeps_items, law_sort_sorts, le, sort, sort_names, sort_texts, views,
};
use crate::prefix::{
    common, common_prefix, entry_names, has_common_prefix, law_common_prefix_extends,
    lemma_prefix_trans, longest_common_prefix, longest_common_prefix_files, names,
};
use crate::text::{byte_len, clone_texts, contains_text, same, same_texts, starts_with, texts};

verus! {

/// What the last press of the tab key was about: the line, the directory and the prefix
/// looked for, the matches (with a mark on directories), and whether it was the first
/// press for these.
pub struct TabState {
    pub line: String,
    pub dir: String,
    pub prefix: String,
    pub matches: Vec<(String, bool)>,
    pub first: bool,
}

/// What a `TabState` stands for.
pub struct TabView {
    pub line: Seq<char>,
    pub dir: Seq<char>,
    pub prefix: Seq<char>,
    pub matches: Seq<(Seq<char>, bool)>,
    pub first: bool,
}

impl View for TabState {
    type V = TabView;

    open spec fn view(&self) -> TabView {
        TabView {
            line: self.line@,
            dir: self.dir@,
            prefix: self.prefix@,
            matches: views(self.matches@),
            first: self.first,
        }
    }
}

/// What an optional state stands for.
pub open spec fn opt_tab(s: Option<TabState>) -> Option<TabView> {
    match s {
        Some(s) => Some(s@),
        None => None,
    }
}

/// A text to offer, and what to put into the line for it.
pub struct Candidate {
    pub display: String,
    pub replacement: String,
}

/// What the user gets to hear or see.
pub enum Notice {
    Silent,
    Bell,
    Show(String),
}

/// The answer to a press of the tab key: from byte `start` of the line to the cursor the
/// candidate is put in, if there is one.
pub struct Completion {
    pub start: usize,
    pub candidate: Option<Candidate>,
    pub notice: Notice,
}

/// What a `Notice` stands for.
pub enum NoticeView {
    Silent,
    Bell,
    Show(Seq<char>),
}

/// What a `Completion` stands for; a candidate is its display and its replacement.
pub struct CompletionView {
    pub start: nat,
    pub candidate: Option<(Seq<char>, Seq<char>)>,
    pub notice: NoticeView,
}

impl View for Completion {
    type V = CompletionView;

    open spec fn view(&self) -> CompletionView {
        CompletionView {
            start: self.start as nat,
            candidate: match self.candidate {
                Some(c) => Some((c.display@, c.replacement@)),
                None => None,
            },
            notice: match self.notice {
                Notice::Silent => NoticeView::Silent,
                Notice::Bell => NoticeView::Bell,
                Notice::Show(text) => NoticeView::Show(text@),
            },
        }
    }
}

/// Nothing is put into the line.
pub open spec fn nothing_at(start: nat, notice: NoticeView) -> CompletionView {
    CompletionView { start, candidate: None, notice }
}

/// `replacement` is put into the line.
pub open spec fn insert_at(
    start: nat,
    display: Seq<char>,
    replacement: Seq<char>,
) -> CompletionView {
    CompletionView { start, candidate: Some((display, replacement)), notice: NoticeView::Silent }
}

/// A listing on a line of its own, and the prompt with the line again below it.
pub open spec fn shown(listing: Seq<char>, line: Seq<char>) -> Seq<char> {
    "\n"@ + listing + "\n$ "@ + line
}

/// The answer where several things match. The first press inserts what they have in common
/// (`base` and `common_part`, from `start` on) if this is longer than what was typed, and
/// rings else; a further press lists them.
pub open spec fn several(
    first: bool,
    line: Seq<char>,
    pos: nat,
    start: nat,
    word: Seq<char>,
    base: Seq<char>,
    common_part: Option<Seq<char>>,
    listing: Seq<char>,
) -> CompletionView {
    if !first {
        nothing_at(pos, NoticeView::Show(shown(listing, line)))
    } else if common_part is Some && encode_utf8(common_part->0).len() > encode_utf8(word).len() {
        insert_at(start, common_part->0, base + common_part->0)
    } else {
        nothing_at(pos, NoticeView::Bell)
    }
}

fn quiet(start: usize, notice: Notice) -> (r: Completion)
    ensures
        r@ == nothing_at(start as nat, r@.notice),
        r.notice == notice,
{
    Completion { start, candidate: None, notice }
}

fn insertion(start: usize, display: String, replacement: String) -> (r: Completion)
    ensures
        r@ == insert_at(start as nat, display@, replacement@),
{
    Completion {
        start,
        candidate: Some(Candidate { display, replacement }),
        notice: Notice::Silent,
    }
}

fn show_text(listing: &str, line: &str) -> (r: String)
    ensures
        r@ == shown(listing@, line@),
{
    let mut out = "\n".to_owned();
    out.append(listing);
    out.append("\n$ ");
    out.append(line);
    out
}

fn answer_several(
    first: bool,
    line: &str,
    pos: usize,
    start: usize,
    word: &str,
    base: &str,
    common_part: Option<String>,
    listing: &str,
) -> (r: Completion)
    ensures
        r@ == several(
            first,
            line@,
            pos as nat,
            start as nat,
            word@,
            base@,
            match common_part {
                Some(s) => Some(s@),
                None => None,
            },
            listing@,
        ),
{
    if !first {
        return quiet(pos, Notice::Show(show_text(listing, line)));
    }
    match common_part {
        Some(part) => if byte_len(&part) > byte_len(word) {
            let mut replacement = base.to_owned();
            replacement.append(&part);
            insertion(start, part, replacement)
        } else {
            quiet(pos, Notice::Bell)
        },
        None => quiet(pos, Notice::Bell),
    }
}

/// Names as entries that are no directories.
pub open spec fn plain_entries(list: Seq<Seq<char>>) -> Seq<(Seq<char>, bool)> {
    Seq::new(list.len(), |i: int| (list[i], false))
}

fn as_plain_entries(list: &[String]) -> (r: Vec<(String, bool)>)
    ensures
        views(r@) == plain_entries(texts(list@)),
{
    let mut out: Vec<(String, bool)> = Vec::new();
    let mut i: usize = 0;
    let ghost all = plain_entries(texts(list@));
    while i < list.len()
        invariant
            i <= list@.len(),
            all == plain_entries(texts(list@)),
            views(out@) == all.take(i as int),
        decreases list@.len() - i,
    {
        let ghost before = views(out@);
        out.push((list[i].clone(), false));
        assert(all[i as int] == (list@[i as int]@, false));
        assert(views(out@) =~= before.push(all[i as int]));
        assert(all.take(i + 1) =~= all.take(i as int).push(all[i as int]));
        i = i + 1;
    }
    assert(all.take(i as int) =~= all);
    out
}

proof fn lemma_empty_text()
    ensures
        ""@ == Seq::<char>::empty(),
{
    reveal_strlit("");
    assert(""@ =~= Seq::<char>::empty());
}

/// Whether the last press was about the same line and the same matches.
pub open spec fn repeats_matches(
    state: Option<TabView>,
    line: Seq<char>,
    list: Seq<Seq<char>>,
) -> bool {
    state is Some && (state->0).line == line && names((state->0).matches) == list
}

fn is_repeat(state: &Option<TabState>, line: &str, list: &[String]) -> (r: bool)
    ensures
        r == repeats_matches(opt_tab(*state), line@, texts(list@)),
{
    match state {
        Some(s) => same(&s.line, line) && same_texts(&entry_names(&s.matches), list),
        None => false,
    }
}

/// What is remembered of a press about a line and the matches of a word.
pub open spec fn remembered(
    line: Seq<char>,
    prefix: Seq<char>,
    list: Seq<Seq<char>>,
    first: bool,
) -> Option<TabView> {
    Some(
        TabView {
            line,
            dir: Seq::empty(),
            prefix,
            matches: plain_entries(list),
            first,
        },
    )
}

fn remember(line: &str, prefix: &str, list: &[String], first: bool) -> (r: Option<TabState>)
    ensures
        opt_tab(r) == remembered(line@, prefix@, texts(list@), first),
{
    Some(
        TabState {
            line: line.to_owned(),
            dir: String::new(),
            prefix: prefix.to_owned(),
            matches: as_plain_entries(list),
            first,
        },
    )
}

/// The text with a space after it.
fn with_space(s: &str) -> (r: String)
    ensures
        r@ == s@.push(' '),
{
    let mut out = s.to_owned();
    out.push(' ');
    out
}

/// The answer for the name of a command whose script offers candidates: a single one is
/// inserted; several are announced by the bell, then listed.
pub open spec fn script_command_answer(
    line: Seq<char>,
    pos: nat,
    list: Seq<Seq<char>>,
    state: Option<TabView>,
) -> (CompletionView, Option<TabView>) {
    if list.len() == 0 {
        (nothing_at(pos, NoticeView::Silent), state)
    } else if list.len() == 1 {
        (insert_at(0, list[0], list[0].push(' ')), state)
    } else {
        let first = !repeats_matches(state, line, list);
        (
            several(
                first,
                line,
                pos,
                0,
                Seq::empty(),
                Seq::empty(),
                None,
                join(list, "  "@),
            ),
            remembered(line, Seq::empty(), list, first),
        )
    }
}

/// Answers a press on the name of a command whose script offers candidates.
pub fn complete_command_by_script(
    line: &str,
    pos: usize,
    candidates: &[String],
    state: &mut Option<TabState>,
) -> (r: Completion)
    ensures
        (r@, opt_tab(*final(state))) == script_command_answer(
            line@,
            pos as nat,
            texts(candidates@),
            opt_tab(*old(state)),
        ),
{
    if candidates.len() == 0 {
        return quiet(pos, Notice::Silent);
    }
    if candidates.len() == 1 {
        return insertion(0, candidates[0].clone(), with_space(&candidates[0]));
    }
    let first = !is_repeat(state, line, candidates);
    *state = remember(line, "", candidates, first);
    proof {
        lemma_empty_text();
    }
    answer_several(first, line, pos, 0, "", "", None, &join_texts(candidates, "  "))
}

/// The commands that start with `word`: the programs found, and the shell's own commands
/// that are not among them, in order.
pub open spec fn matching_commands(
    word: Seq<char>,
    executables: Seq<Seq<char>>,
) -> Seq<Seq<char>> {
    sort_names(
        executables + builtin_names().filter(
            |name: Seq<char>| word.is_prefix_of(name) && !executables.contains(name),
        ),
    )
}

/// The commands that start with `word`: the programs found, and the shell's own commands.
pub fn command_matches(word: &str, executables: Vec<String>) -> (r: Vec<String>)
    ensures
        texts(r@) == matching_commands(word@, texts(executables@)),
{
    let ghost found = texts(executables@);
    let ghost wanted = |name: Seq<char>| word@.is_prefix_of(name) && !found.contains(name);
    let own = builtins();
    let mut list = clone_texts(&executables);
    let mut i: usize = 0;
    proof {
        reveal(Seq::filter);
        assert(builtin_names().take(0).filter(wanted) =~= Seq::empty());
        assert(texts(list@) =~= found + Seq::empty());
    }
    while i < own.len()
        invariant
            i <= own@.len(),
            own@.len() == builtin_names().len(),
            forall|j: int| 0 <= j < own@.len() ==> (#[trigger] own@[j])@ == builtin_names()[j],
            found == texts(executables@),
            wanted == (|name: Seq<char>| word@.is_prefix_of(name) && !found.contains(name)),
            texts(list@) == found + builtin_names().take(i as int).filter(wanted),
        decreases own@.len() - i,
    {
        let name = own[i];
        let ghost before = texts(list@);
        proof {
            reveal(Seq::filter);
            assert(builtin_names().take(i + 1).drop_last() =~= builtin_names().take(i as int));
            assert(builtin_names().take(i + 1).last() == name@);
        }
        if starts_with(name, word) && !contains_text(&executables, name) {
            list.push(name.to_owned());
            assert(texts(list@) =~= before.push(name@));
            assert(before.push(name@) =~= found + builtin_names().take(i as int).filter(
                wanted,
            ).push(name@));
        }
        i = i + 1;
    }
    assert(builtin_names().take(i as int) =~= builtin_names());
    sort_texts(list)
}

/// The answer for the name of a command: a single match is inserted with a space; of
/// several the common part is inserted if it says more than what was typed.
pub open spec fn command_answer(
    line: Seq<char>,
    pos: nat,
    word: Seq<char>,
    list: Seq<Seq<char>>,
    state: Option<TabView>,
) -> (CompletionView, Option<TabView>) {
    if list.len() == 0 {
        (nothing_at(pos, NoticeView::Silent), None)
    } else if list.len() == 1 {
        (insert_at(0, list[0], list[0].push(' ')), None)
    } else {
        let first = !repeats_matches(state, line, list);
        (
            several(
                first,
                line,
                pos,
                0,
                word,
                Seq::empty(),
                Some(common_prefix(list)),
                join(list, "  "@),
            ),
            remembered(line, Seq::empty(), list, first),
        )
    }
}

/// Answers a press on the name of a command.
pub fn complete_command(
    line: &str,
    pos: usize,
    word: &str,
    matches: &[String],
    state: &mut Option<TabState>,
) -> (r: Completion)
    requires
        has_common_prefix(texts(matches@)),
    ensures
        (r@, opt_tab(*final(state))) == command_answer(
            line@,
            pos as nat,
            word@,
            texts(matches@),
            opt_tab(*old(state)),
        ),
{
    if matches.len() == 0 {
        *state = None;
        return quiet(pos, Notice::Silent);
    }
    if matches.len() == 1 {
        *state = None;
        return insertion(0, matches[0].clone(), with_space(&matches[0]));
    }
    let lcp = longest_common_prefix(matches);
    let first = !is_repeat(state, line, matches);
    *state = remember(line, "", matches, first);
    proof {
        lemma_empty_text();
    }
    answer_several(first, line, pos, 0, word, "", Some(lcp), &join_texts(matches, "  "))
}

/// The answer for an argument for which a script offers candidates: a single one is
/// inserted with a space; of several the common part is inserted if it is longer than
/// what was typed.
pub open spec fn script_argument_answer(
    line: Seq<char>,
    pos: nat,
    start: nat,
    word: Seq<char>,
    list: Seq<Seq<char>>,
    state: Option<TabView>,
) -> (CompletionView, Option<TabView>) {
    if list.len() == 0 {
        (nothing_at(pos, NoticeView::Silent), state)
    } else if list.len() == 1 {
        (insert_at(start, list[0], list[0].push(' ')), state)
    } else {
        let first = !(state is Some && (state->0).line == line);
        (
            several(
                first,
                line,
                pos,
                start,
                word,
                Seq::empty(),
                Some(common_prefix(list)),
                join(list, "  "@),
            ),
            remembered(line, word, list, first),
        )
    }
}

/// Answers a press on an argument for which a script offers candidates.
pub fn complete_argument_by_script(
    line: &str,
    pos: usize,
    start: usize,
    current_word: &str,
    candidates: &[String],
    state: &mut Option<TabState>,
) -> (r: Completion)
    requires
        has_common_prefix(texts(candidates@)),
    ensures
        (r@, opt_tab(*final(state))) == script_argument_answer(
            line@,
            pos as nat,
            start as nat,
            current_word@,
            texts(candidates@),
            opt_tab(*old(state)),
        ),
{
    if candidates.len() == 0 {
        return quiet(pos, Notice::Silent);
    }
    if candidates.len() == 1 {
        return insertion(start, candidates[0].clone(), with_space(&candidates[0]));
    }
    let lcp = longest_common_prefix(candidates);
    let first = match state {
        Some(s) => !same(&s.line, line),
        None => true,
    };
    *state = remember(line, current_word, candidates, first);
    proof {
        lemma_empty_text();
    }
    answer_several(
        first,
        line,
        pos,
        start,
        current_word,
        "",
        Some(lcp),
        &join_texts(candidates, "  "),
    )
}

/// An entry as it is listed: directories end with a slash.
pub open spec fn listed(entry: (Seq<char>, bool)) -> Seq<char> {
    if entry.1 {
        entry.0.push('/')
    } else {
        entry.0
    }
}

/// The entries as they are listed.
pub open spec fn listed_all(entries: Seq<(Seq<char>, bool)>) -> Seq<Seq<char>> {
    Seq::new(entries.len(), |i: int| listed(entries[i]))
}

fn list_entries(entries: &[(String, bool)]) -> (r: Vec<String>)
    ensures
        texts(r@) == listed_all(views(entries@)),
{
    let mut out: Vec<String> = Vec::new();
    let mut i: usize = 0;
    let ghost all = listed_all(views(entries@));
    while i < entries.len()
        invariant
            i <= entries@.len(),
            all == listed_all(views(entries@)),
            texts(out@) == all.take(i as int),
        decreases entries@.len() - i,
    {
        let ghost before = texts(out@);
        let mut text = entries[i].0.clone();
        if entries[i].1 {
            text.push('/');
        }
        assert(text@ == all[i as int]);
        out.push(text);
        assert(texts(out@) =~= before.push(all[i as int]));
        assert(all.take(i + 1) =~= all.take(i as int).push(all[i as int]));
        i = i + 1;
    }
    assert(all.take(i as int) =~= all);
    out
}

fn clone_entries(entries: &[(String, bool)]) -> (r: Vec<(String, bool)>)
    ensures
        views(r@) == views(entries@),
{
    let mut out: Vec<(String, bool)> = Vec::new();
    let mut i: usize = 0;
    let ghost all = views(entries@);
    while i < entries.len()
        invariant
            i <= entries@.len(),
            all == views(entries@),
            views(out@) == all.take(i as int),
        decreases entries@.len() - i,
    {
        let ghost before = views(out@);
        out.push((entries[i].0.clone(), entries[i].1));
        assert(views(out@) =~= before.push(all[i as int]));
        assert(all.take(i + 1) =~= all.take(i as int).push(all[i as int]));
        i = i + 1;
    }
    assert(all.take(i as int) =~= all);
    out
}

/// The answer for an argument that names a file: a single match is inserted, with a slash
/// after a directory and a space after anything else; of several the common part is
/// inserted if it says more than what was typed.
pub open spec fn file_answer(
    line: Seq<char>,
    pos: nat,
    start: nat,
    dir: Seq<char>,
    prefix: Seq<char>,
    base: Seq<char>,
    matches: Seq<(Seq<char>, bool)>,
    state: Option<TabView>,
) -> (CompletionView, Option<TabView>) {
    if matches.len() == 0 {
        (nothing_at(pos, NoticeView::Silent), None)
    } else if matches.len() == 1 {
        let (name, is_dir) = matches[0];
        (
            insert_at(
                start,
                name,
                (base + name).push(
                    if is_dir {
                        '/'
                    } else {
                        ' '
                    },
                ),
            ),
            None,
        )
    } else {
        let first = !(state is Some && (state->0).line == line && (state->0).dir == dir && (
        state->0).prefix == prefix);
        (
            several(
                first,
                line,
                pos,
                start,
                prefix,
                base,
                Some(common_prefix(names(matches))),
                join(listed_all(matches), "  "@),
            ),
            Some(TabView { line, dir, prefix, matches, first }),
        )
    }
}

/// Answers a press on an argument that names a file.
pub fn complete_file(
    line: &str,
    pos: usize,
    start: usize,
    dir: &str,
    prefix: &str,
    base: &str,
    matches: &[(String, bool)],
    state: &mut Option<TabState>,
) -> (r: Completion)
    requires
        has_common_prefix(names(views(matches@))),
    ensures
        (r@, opt_tab(*final(state))) == file_answer(
            line@,
            pos as nat,
            start as nat,
            dir@,
            prefix@,
            base@,
            views(matches@),
            opt_tab(*old(state)),
        ),
{
    if matches.len() == 0 {
        *state = None;
        return quiet(pos, Notice::Silent);
    }
    if matches.len() == 1 {
        *state = None;
        let mut replacement = base.to_owned();
        replacement.append(&matches[0].0);
        replacement.push(
            if matches[0].1 {
                '/'
            } else {
                ' '
            },
        );
        return insertion(start, matches[0].0.clone(), replacement);
    }
    let lcp = longest_common_prefix_files(matches);
    let first = match state {
        Some(s) => !(same(&s.line, line) && same(&s.dir, dir) && same(&s.prefix, prefix)),
        None => true,
    };
    *state = Some(
        TabState {
            line: line.to_owned(),
            dir: dir.to_owned(),
            prefix: prefix.to_owned(),
            matches: clone_entries(matches),
            first,
        },
    );
    answer_several(
        first,
        line,
        pos,
        start,
        prefix,
        base,
        Some(lcp),
        &join_texts(&list_entries(matches), "  "),
    )
}

proof fn lemma_names_of_plain(list: Seq<Seq<char>>)
    ensures
        names(plain_entries(list)) == list,
{
    assert(names(plain_entries(list)) =~= list);
}

/// Pressing the key again on the name of a command with the same matches lists them, whatever
/// the first press did.
pub proof fn law_second_press_lists_commands(
    line: Seq<char>,
    pos: nat,
    word: Seq<char>,
    list: Seq<Seq<char>>,
    state: Option<TabView>,
)
    requires
        list.len() >= 2,
    ensures
        ({
            let after = command_answer(line, pos, word, list, state).1;
            command_answer(line, pos, word, list, after).0 == nothing_at(
                pos,
                NoticeView::Show(shown(join(list, "  "@), line)),
            )
        }),
{
    lemma_names_of_plain(list);
}

/// Pressing the key again on the name of a command lists the candidates of its script.
pub proof fn law_second_press_lists_script_commands(
    line: Seq<char>,
    pos: nat,
    list: Seq<Seq<char>>,
    state: Option<TabView>,
)
    requires
        list.len() >= 2,
    ensures
        ({
            let after = script_command_answer(line, pos, list, state).1;
            script_command_answer(line, pos, list, after).0 == nothing_at(
                pos,
                NoticeView::Show(shown(join(list, "  "@), line)),
            )
        }),
{
    lemma_names_of_plain(list);
}

/// Pressing the key again on an argument, in the same line, lists the candidates of the
/// script that are offered then, be they the same as before or not.
pub proof fn law_second_press_lists_script_arguments(
    line: Seq<char>,
    pos: nat,
    start: nat,
    word: Seq<char>,
    list: Seq<Seq<char>>,
    then: Seq<Seq<char>>,
    state: Option<TabView>,
)
    requires
        list.len() >= 2,
        then.len() >= 2,
    ensures
        ({
            let after = script_argument_answer(line, pos, start, word, list, state).1;
            script_argument_answer(line, pos, start, word, then, after).0 == nothing_at(
                pos,
                NoticeView::Show(shown(join(then, "  "@), line)),
            )
        }),
{
}

/// Pressing the key again on a file's name, in the same line, lists the entries that match
/// then, directories with a slash.
pub proof fn law_second_press_lists_files(
    line: Seq<char>,
    pos: nat,
    start: nat,
    dir: Seq<char>,
    prefix: Seq<char>,
    base: Seq<char>,
    matches: Seq<(Seq<char>, bool)>,
    then: Seq<(Seq<char>, bool)>,
    state: Option<TabView>,
)
    requires
        matches.len() >= 2,
        then.len() >= 2,
    ensures
        ({
            let after = file_answer(line, pos, start, dir, prefix, base, matches, state).1;
            file_answer(line, pos, start, dir, prefix, base, then, after).0 == nothing_at(
                pos,
                NoticeView::Show(shown(join(listed_all(then), "  "@), line)),
            )
        }),
{
}

/// Every command offered for a word starts with it, if the programs found do.
pub proof fn law_matching_commands_start_with_word(
    word: Seq<char>,
    executables: Seq<Seq<char>>,
)
    requires
        common(executables, word),
    ensures
        common(matching_commands(word, executables), word),
{
    let wanted = |name: Seq<char>| word.is_prefix_of(name) && !executables.contains(name);
    let own = builtin_names().filter(wanted);
    let all = executables + own;
    let list = matching_commands(word, executables);
    law_sort_keeps_items(all, key_of::<String>());
    assert forall|i: int| 0 <= i < list.len() implies word.is_prefix_of(#[trigger] list[i]) by {
        broadcast use vstd::seq_lib::group_to_multiset_ensures;

        assert(list.to_multiset().count(list[i]) > 0) by {
            assert(list.contains(list[i]));
        }
        assert(all.contains(list[i]));
        let k = choose|k: int| 0 <= k < all.len() && all[k] == list[i];
        if k < executables.len() {
            assert(word.is_prefix_of(executables[k]));
        } else {
            builtin_names().lemma_filter_pred(wanted, k - executables.len());
            assert(wanted(own[k - executables.len()]));
        }
    }
}

/// What is inserted for the name of a command starts with what was typed of it.
pub proof fn law_command_insertion_extends(
    line: Seq<char>,
    pos: nat,
    word: Seq<char>,
    list: Seq<Seq<char>>,
    state: Option<TabView>,
)
    requires
        common(list, word),
    ensures
        command_answer(line, pos, word, list, state).0.candidate matches Some((_, replacement))
            ==> word.is_prefix_of(replacement),
{
    if list.len() == 1 {
        assert(word.is_prefix_of(list[0]));
        assert(list[0].is_prefix_of(list[0].push(' '))) by {
            assert(list[0] =~= list[0].push(' ').subrange(0, list[0].len() as int));
        }
        lemma_prefix_trans(word, list[0], list[0].push(' '));
    } else if list.len() > 1 {
        law_common_prefix_extends(list, word);
        assert(Seq::<char>::empty() + common_prefix(list) =~= common_prefix(list));
    }
}

/// What is inserted for a file's name starts with what was typed of it, its directory
/// included.
pub proof fn law_file_insertion_extends(
    line: Seq<char>,
    pos: nat,
    start: nat,
    dir: Seq<char>,
    prefix: Seq<char>,
    base: Seq<char>,
    matches: Seq<(Seq<char>, bool)>,
    state: Option<TabView>,
)
    requires
        common(names(matches), prefix),
    ensures
        file_answer(line, pos, start, dir, prefix, base, matches, state).0.candidate matches Some(
            (_, replacement),
        ) ==> (base + prefix).is_prefix_of(replacement),
{
    if matches.len() == 1 {
        let name = matches[0].0;
        assert(names(matches)[0] == name);
        assert(prefix.is_prefix_of(name));
        lemma_prefix_after(base, prefix, name);
        let end = if matches[0].1 {
            '/'
        } else {
            ' '
        };
        assert((base + name).is_prefix_of((base + name).push(end))) by {
            assert(base + name =~= (base + name).push(end).subrange(0, (base + name).len() as int));
        }
        lemma_prefix_trans(base + prefix, base + name, (base + name).push(end));
    } else if matches.len() > 1 {
        law_common_prefix_extends(names(matches), prefix);
        lemma_prefix_after(base, prefix, common_prefix(names(matches)));
    }
}

proof fn lemma_prefix_after(base: Seq<char>, a: Seq<char>, b: Seq<char>)
    requires
        a.is_prefix_of(b),
    ensures
        (base + a).is_prefix_of(base + b),
{
    assert(base + a =~= (base + b).subrange(0, (base + a).len() as int)) by {
        assert forall|i: int| 0 <= i < (base + a).len() implies (base + a)[i] == (base
            + b).subrange(0, (base + a).len() as int)[i] by {
            if i >= base.len() {
                assert(a[i - base.len()] == b.subrange(0, a.len() as int)[i - base.len()]);
            }
        }
    }
}

/// What a single press does about several things that match: the first press on them inserts
/// what they have in common if that is longer, in bytes, than what was typed, and rings else;
/// a further press shows the list on a line of its own, with the prompt and the line below.
pub proof fn law_several(
    line: Seq<char>,
    pos: nat,
    start: nat,
    word: Seq<char>,
    base: Seq<char>,
    part: Seq<char>,
    listing: Seq<char>,
)
    ensures
        ({
            let first = several(true, line, pos, start, word, base, Some(part), listing);
            let bare = several(true, line, pos, start, word, base, None, listing);
            let again = several(false, line, pos, start, word, base, Some(part), listing);
            let bare_again = several(false, line, pos, start, word, base, None, listing);
            let longer = encode_utf8(part).len() > encode_utf8(word).len();
            &&& longer ==> first.start == start && first.candidate == Some((part, base + part))
                && first.notice == NoticeView::Silent
            &&& !longer ==> first.start == pos && first.candidate is None && first.notice
                == NoticeView::Bell
            &&& bare.start == pos && bare.candidate is None && bare.notice == NoticeView::Bell
            &&& again.start == pos && again.candidate is None && again.notice == NoticeView::Show(
                "\n"@ + listing + "\n$ "@ + line,
            )
            &&& bare_again == again
        }),
{
}

/// The name of a command with no match: nothing happens. With one: it is inserted, with a space
/// after it, in place of everything before the cursor. Both forget the last press. With several:
/// unless the last press was about the same line and the same matches, this is the first one,
/// and what they have in common counts; the line and the matches are remembered.
pub proof fn law_press_on_a_command(
    line: Seq<char>,
    pos: nat,
    word: Seq<char>,
    list: Seq<Seq<char>>,
    state: Option<TabView>,
)
    ensures
        ({
            let (answer, after) = command_answer(line, pos, word, list, state);
            let again = state is Some && (state->0).line == line && names((state->0).matches)
                == list;
            &&& list.len() == 0 ==> answer == nothing_at(pos, NoticeView::Silent) && after is None
            &&& list.len() == 1 ==> answer == insert_at(0, list[0], list[0] + seq![' '])
                && after is None
            &&& list.len() >= 2 ==> {
                &&& answer == several(
                    !again,
                    line,
                    pos,
                    0,
                    word,
                    Seq::empty(),
                    Some(common_prefix(list)),
                    join(list, "  "@),
                )
                &&& after is Some && (after->0).line == line && (after->0).first == !again
                &&& names((after->0).matches) == list
                &&& (after->0).dir.len() == 0 && (after->0).prefix.len() == 0
            }
        }),
{
    lemma_names_of_plain(list);
    if list.len() == 1 {
        assert(list[0].push(' ') =~= list[0] + seq![' ']);
    }
}

/// The name of a command whose script makes offers: one is inserted, with a space after it, in
/// place of everything before the cursor; for several the bell rings, and the press after it on
/// the same line and offers lists them. None and one change nothing of what is remembered.
pub proof fn law_press_on_a_scripted_command(
    line: Seq<char>,
    pos: nat,
    list: Seq<Seq<char>>,
    state: Option<TabView>,
)
    ensures
        ({
            let (answer, after) = script_command_answer(line, pos, list, state);
            let again = state is Some && (state->0).line == line && names((state->0).matches)
                == list;
            &&& list.len() == 0 ==> answer == nothing_at(pos, NoticeView::Silent) && after == state
            &&& list.len() == 1 ==> answer == insert_at(0, list[0], list[0] + seq![' ']) && after
                == state
            &&& list.len() >= 2 && !again ==> answer == nothing_at(pos, NoticeView::Bell)
            &&& list.len() >= 2 && again ==> answer == nothing_at(
                pos,
                NoticeView::Show("\n"@ + join(list, "  "@) + "\n$ "@ + line),
            )
            &&& list.len() >= 2 ==> {
                &&& after is Some && (after->0).line == line && (after->0).first == !again
                &&& names((after->0).matches) == list
                &&& (after->0).dir.len() == 0 && (after->0).prefix.len() == 0
            }
        }),
{
    lemma_names_of_plain(list);
    if list.len() == 1 {
        assert(list[0].push(' ') =~= list[0] + seq![' ']);
    }
}

/// An argument for which a script makes offers: one is inserted, with a space after it, in
/// place of the argument; for several a press on another line than the last one is the first,
/// and what they have in common counts; the line, the word and the offers are remembered. None
/// and one change nothing of what is remembered.
pub proof fn law_press_on_a_scripted_argument(
    line: Seq<char>,
    pos: nat,
    start: nat,
    word: Seq<char>,
    list: Seq<Seq<char>>,
    state: Option<TabView>,
)
    ensures
        ({
            let (answer, after) = script_argument_answer(line, pos, start, word, list, state);
            let again = state is Some && (state->0).line == line;
            &&& list.len() == 0 ==> answer == nothing_at(pos, NoticeView::Silent) && after == state
            &&& list.len() == 1 ==> answer == insert_at(start, list[0], list[0] + seq![' '])
                && after == state
            &&& list.len() >= 2 ==> {
                &&& answer == several(
                    !again,
                    line,
                    pos,
                    start,
                    word,
                    Seq::empty(),
                    Some(common_prefix(list)),
                    join(list, "  "@),
                )
                &&& after is Some && (after->0).line == line && (after->0).first == !again
                &&& names((after->0).matches) == list
                &&& (after->0).dir.len() == 0 && (after->0).prefix == word
            }
        }),
{
    lemma_names_of_plain(list);
    if list.len() == 1 {
        assert(list[0].push(' ') =~= list[0] + seq![' ']);
    }
}

/// An argument that names a file with no match: nothing happens. With one: it is inserted behind
/// its directory, with a slash after a directory and a space after anything else. Both forget
/// the last press. With several: unless the last press was about the same line, directory and
/// prefix, this is the first one, and what they have in common counts; all of it is remembered.
pub proof fn law_press_on_a_file(
    line: Seq<char>,
    pos: nat,
    start: nat,
    dir: Seq<char>,
    prefix: Seq<char>,
    base: Seq<char>,
    matches: Seq<(Seq<char>, bool)>,
    state: Option<TabView>,
)
    ensures
        ({
            let (answer, after) = file_answer(line, pos, start, dir, prefix, base, matches, state);
            let again = state is Some && (state->0).line == line && (state->0).dir == dir && (
            state->0).prefix == prefix;
            &&& matches.len() == 0 ==> answer == nothing_at(pos, NoticeView::Silent)
                && after is None
            &&& matches.len() == 1 && matches[0].1 ==> answer == insert_at(
                start,
                matches[0].0,
                base + matches[0].0 + seq!['/'],
            ) && after is None
            &&& matches.len() == 1 && !matches[0].1 ==> answer == insert_at(
                start,
                matches[0].0,
                base + matches[0].0 + seq![' '],
            ) && after is None
            &&& matches.len() >= 2 ==> {
                &&& answer == several(
                    !again,
                    line,
                    pos,
                    start,
                    prefix,
                    base,
                    Some(common_prefix(names(matches))),
                    join(listed_all(matches), "  "@),
                )
                &&& after == Some(TabView { line, dir, prefix, matches, first: !again })
            }
        }),
{
    if matches.len() == 1 {
        let text = base + matches[0].0;
        assert(text.push('/') =~= text + seq!['/']);
        assert(text.push(' ') =~= text + seq![' ']);
    }
}

/// What an answer puts into the line, or does not, and what comes with it.
pub proof fn law_answers(
    start: nat,
    notice: NoticeView,
    display: Seq<char>,
    replacement: Seq<char>,
)
    ensures
        nothing_at(start, notice).start == start,
        nothing_at(start, notice).candidate is None,
        nothing_at(start, notice).notice == notice,
        insert_at(start, display, replacement).start == start,
        insert_at(start, display, replacement).candidate == Some((display, replacement)),
        insert_at(start, display, replacement).notice == NoticeView::Silent,
{
}

/// Every entry is listed, in order, a directory with a slash after its name and anything else
/// by its name; for what they have in common the names alone count.
pub proof fn law_listed_entries(entries: Seq<(Seq<char>, bool)>, i: int)
    ensures
        listed_all(entries).len() == entries.len(),
        names(entries).len() == entries.len(),
        0 <= i < entries.len() ==> names(entries)[i] == entries[i].0,
        0 <= i < entries.len() && entries[i].1 ==> listed_all(entries)[i] == entries[i].0 + seq![
            '/',
        ],
        0 <= i < entries.len() && !entries[i].1 ==> listed_all(entries)[i] == entries[i].0,
{
    if 0 <= i < entries.len() {
        assert(entries[i].0.push('/') =~= entries[i].0 + seq!['/']);
    }
}

/// The commands offered for a word are the programs found and, once each, those of the shell's
/// own commands that start with the word and are not among the programs; in order.
pub proof fn law_matching_commands(
    word: Seq<char>,
    executables: Seq<Seq<char>>,
    name: Seq<char>,
)
    ensures
        ({
            let list = matching_commands(word, executables);
            let own = builtin_names().contains(name) && word.is_prefix_of(name)
                && !executables.contains(name);
            &&& list.to_multiset().count(name) == executables.to_multiset().count(name) + if own {
                1int
            } else {
                0int
            }
            &&& forall|i: int, j: int|
                0 <= i <= j < list.len() ==> le(#[trigger] list[i], #[trigger] list[j])
        }),
{
    broadcast use vstd::seq_lib::group_to_multiset_ensures;

    let wanted = |n: Seq<char>| word.is_prefix_of(n) && !executables.contains(n);
    let own = builtin_names().filter(wanted);
    let all = executables + own;
    let list = matching_commands(word, executables);
    let key = key_of::<String>();
    law_sort_keeps_items(all, key);
    law_sort_sorts(all, key);
    assert(all.to_multiset() =~= executables.to_multiset().add(own.to_multiset())) by {
        vstd::seq_lib::lemma_multiset_commutative(executables, own);
    }
    lemma_builtin_names_distinct();
    lemma_filter_no_duplicates(builtin_names(), wanted);
    own.lemma_multiset_has_no_duplicates();
    if builtin_names().contains(name) && wanted(name) {
        let k = choose|k: int| 0 <= k < builtin_names().len() && builtin_names()[k] == name;
        builtin_names().lemma_filter_contains(wanted, k);
    }
    if own.contains(name) {
        builtin_names().lemma_filter_contains_rev(wanted, name);
        let k = choose|k: int| 0 <= k < own.len() && own[k] == name;
        builtin_names().lemma_filter_pred(wanted, k);
        assert(wanted(name));
    }
    assert forall|i: int, j: int| 0 <= i <= j < list.len() implies le(
        #[trigger] list[i],
        #[trigger] list[j],
    ) by {
        assert(le(key(sort(all, key)[i]), key(sort(all, key)[j])));
    }
}

proof fn lemma_filter_no_duplicates<T>(s: Seq<T>, test: spec_fn(T) -> bool)
    requires
        s.no_duplicates(),
    ensures
        s.filter(test).no_duplicates(),
    decreases s.len(),
{
    reveal(Seq::filter);
    if s.len() > 0 {
        let rest = s.drop_last();
        lemma_filter_no_duplicates(rest, test);
        let kept = rest.filter(test);
        assert forall|i: int| 0 <= i < kept.len() implies kept[i] != s.last() by {
            assert(kept.contains(kept[i]));
            rest.lemma_filter_contains_rev(test, kept[i]);
            let k = choose|k: int| 0 <= k < rest.len() && rest[k] == kept[i];
            assert(s[k] == kept[i]);
        }
    }
}

} // verus!
