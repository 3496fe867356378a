//! Finding programs and files, and resolving paths.
use vstd::prelude::*;
use vstd::slice::slice_subrange;
use vstd::string::*;

use crate::builtins::opt_text;
use crate::order::{
    has_key, key_of, law_order_antisymmetric, law_order_transitive, law_sort_keeps_items,
    law_sort_sorts, law_sort_stable, le, lemma_sort_filter, sort, sort_by_name, sort_texts,
    sorted, views,
};
use crate::prefix::lemma_prefix_trans;
use crate::split::{
    equals, lemma_nonempty_push, lemma_split_at, lemma_split_pieces, lemma_split_whole, nonempty,
    split, split_text,
};
use crate::text::{from_chars, same, starts_with, texts, to_chars};

verus! {

/// Whether the permissions of a file let someone execute it: its owner, its group, or
/// everyone else.
pub open spec fn may_execute(mode: u32) -> bool {
    ||| mode & 0o100 != 0
    ||| mode & 0o010 != 0
    ||| mode & 0o001 != 0
}

/// Whether a file with these permissions can be executed; not if they are unknown.
pub open spec fn executable(mode: Option<u32>) -> bool {
    mode is Some && may_execute(mode->0)
}

/// Whether a file with these permissions can be executed.
pub fn is_executable(mode: Option<u32>) -> (r: bool)
    ensures
        r == executable(mode),
{
    match mode {
        Some(m) => {
            assert((m & 0o111 != 0) <==> (m & 0o100 != 0 || m & 0o010 != 0 || m & 0o001 != 0))
                by (bit_vector);
            (m & 0o111) != 0
        },
        None => false,
    }
}

/// The directories in which names of programs are looked for, without empty ones.
pub fn search_dirs(path_var: &str, delimiter: char) -> (r: Vec<String>)
    ensures
        texts(r@) == nonempty(split(path_var@, equals(delimiter))),
{
    let pieces = split_text(path_var, delimiter);
    let ghost all = texts(pieces@);
    let mut out: Vec<String> = Vec::new();
    let mut i: usize = 0;
    proof {
        reveal(Seq::filter);
        assert(texts(out@) =~= nonempty(all.take(0)));
    }
    while i < pieces.len()
        invariant
            i <= pieces@.len(),
            all == texts(pieces@),
            texts(out@) == nonempty(all.take(i as int)),
        decreases pieces@.len() - i,
    {
        let ghost before = texts(out@);
        proof {
            lemma_nonempty_push(all.take(i as int), all[i as int]);
            assert(all.take(i + 1) =~= all.take(i as int).push(all[i as int]));
        }
        if !pieces[i].as_str().is_empty() {
            out.push(pieces[i].clone());
            assert(texts(out@) =~= before.push(all[i as int]));
        }
        i = i + 1;
    }
    assert(all.take(i as int) =~= all);
    out
}

/// The directories in which the program of a command is looked for, in order: all pieces of the
/// search path, the empty ones too.
pub fn probe_dirs(path_var: &str, delimiter: char) -> (r: Vec<String>)
    ensures
        texts(r@) == split(path_var@, equals(delimiter)),
{
    split_text(path_var, delimiter)
}

/// An entry of a directory with programs: its name, whether it is a regular file, and its
/// permissions where they are known.
pub struct ProgramEntry {
    pub name: String,
    pub is_file: bool,
    pub mode: Option<u32>,
}

/// Whether an entry is a program whose name starts with `prefix`.
pub open spec fn is_program(entry: ProgramEntry, prefix: Seq<char>) -> bool {
    prefix.is_prefix_of(entry.name@) && entry.is_file && executable(entry.mode)
}

/// Whether the names stand in order, each of them once.
pub open spec fn increasing(names: Seq<Seq<char>>) -> bool {
    forall|i: int, j: int|
        0 <= i < j < names.len() ==> le(#[trigger] names[i], #[trigger] names[j]) && names[i]
            != names[j]
}

/// Whether one of the entries is a program of the given name that starts with `prefix`.
pub open spec fn program_named(
    entries: Seq<ProgramEntry>,
    prefix: Seq<char>,
    name: Seq<char>,
) -> bool {
    exists|i: int|
        0 <= i < entries.len() && is_program(#[trigger] entries[i], prefix) && entries[i].name@
            == name
}

/// The names without repetitions, of names in order.
fn unique(list: Vec<String>) -> (r: Vec<String>)
    requires
        sorted(texts(list@), key_of::<String>()),
    ensures
        increasing(texts(r@)),
        forall|n: Seq<char>| #[trigger] texts(r@).contains(n) <==> texts(list@).contains(n),
{
    let ghost all = texts(list@);
    let ghost key = key_of::<String>();
    let mut out: Vec<String> = Vec::new();
    let mut i: usize = 0;
    assert(all.take(0) =~= Seq::empty());
    assert(texts(out@) =~= Seq::empty());
    while i < list.len()
        invariant
            i <= list@.len(),
            all == texts(list@),
            key == key_of::<String>(),
            sorted(all, key),
            increasing(texts(out@)),
            forall|n: Seq<char>|
                #[trigger] texts(out@).contains(n) <==> all.take(i as int).contains(n),
            i > 0 ==> out@.len() > 0 && texts(out@).last() == all[i - 1],
        decreases list@.len() - i,
    {
        let ghost before = texts(out@);
        let ghost name = all[i as int];
        let last = out.len();
        let repeated = last > 0 && same(&out[last - 1], &list[i]);
        proof {
            assert(all.take(i + 1) =~= all.take(i as int).push(name));
            if last > 0 {
                assert(before.last() == out@[last - 1]@);
                assert(i > 0) by {
                    if i == 0 {
                        assert(before.contains(before[0]));
                        assert(all.take(0).contains(before[0]));
                    }
                }
            }
        }
        if !repeated {
            out.push(list[i].clone());
            proof {
                assert(texts(out@) =~= before.push(name));
                assert forall|a: int, b: int| 0 <= a < b < texts(out@).len() implies le(
                    #[trigger] texts(out@)[a],
                    #[trigger] texts(out@)[b],
                ) && texts(out@)[a] != texts(out@)[b] by {
                    if b == before.len() {
                        let m = before.len() - 1;
                        assert(le(key(all[i - 1]), key(all[i as int])));
                        assert(le(before[m], name) && before[m] != name);
                        if a < m {
                            assert(le(before[a], before[m]) && before[a] != before[m]);
                            law_order_transitive(before[a], before[m], name);
                            if before[a] == name {
                                law_order_antisymmetric(before[a], before[m]);
                            }
                        }
                    } else {
                        assert(texts(out@)[a] == before[a] && texts(out@)[b] == before[b]);
                    }
                }
            }
        }
        proof {
            assert forall|n: Seq<char>|
                #[trigger] texts(out@).contains(n) <==> all.take(i + 1).contains(n) by {
                let now = texts(out@);
                assert(before.contains(n) <==> all.take(i as int).contains(n));
                lemma_contains_push(all.take(i as int), name, n);
                lemma_contains_push(before, name, n);
                if repeated {
                    assert(before[before.len() - 1] == name);
                    assert(before.contains(name));
                }
            }
        }
        i = i + 1;
    }
    assert(all.take(i as int) =~= all);
    out
}

proof fn lemma_contains_push<T>(s: Seq<T>, x: T, y: T)
    ensures
        s.push(x).contains(y) <==> s.contains(y) || x == y,
{
    if s.contains(y) {
        let k = choose|k: int| 0 <= k < s.len() && s[k] == y;
        assert(s.push(x)[k] == y);
    }
    if x == y {
        assert(s.push(x)[s.len() as int] == y);
    }
    if s.push(x).contains(y) {
        let k = choose|k: int| 0 <= k < s.push(x).len() && s.push(x)[k] == y;
        if k < s.len() {
            assert(s[k] == y);
        }
    }
}

/// The names of the programs among the entries that start with `prefix`, in order, each of
/// them once.
pub fn find_executables_in_path_matching(
    prefix: &str,
    entries: &[ProgramEntry],
) -> (r: Vec<String>)
    ensures
        increasing(texts(r@)),
        forall|n: Seq<char>| #[trigger]
            texts(r@).contains(n) <==> program_named(entries@, prefix@, n),
{
    let mut list: Vec<String> = Vec::new();
    let mut i: usize = 0;
    while i < entries.len()
        invariant
            i <= entries@.len(),
            forall|n: Seq<char>| #[trigger]
                texts(list@).contains(n) <==> program_named(entries@.take(i as int), prefix@, n),
        decreases entries@.len() - i,
    {
        let ghost before = texts(list@);
        let entry = &entries[i];
        let ghost name = entry.name@;
        let found = starts_with(&entry.name, prefix) && entry.is_file && is_executable(entry.mode);
        if found {
            list.push(entry.name.clone());
            assert(texts(list@) =~= before.push(name));
        }
        proof {
            let old_part = entries@.take(i as int);
            let part = entries@.take(i + 1);
            assert(part =~= old_part.push(*entry));
            assert forall|n: Seq<char>| #[trigger]
                texts(list@).contains(n) <==> program_named(part, prefix@, n) by {
                lemma_contains_push(before, name, n);
                assert(before.contains(n) <==> program_named(old_part, prefix@, n));
                if program_named(old_part, prefix@, n) {
                    let k = choose|k: int|
                        0 <= k < old_part.len() && is_program(#[trigger] old_part[k], prefix@)
                            && old_part[k].name@ == n;
                    assert(part[k] == old_part[k]);
                }
                if found && name == n {
                    assert(part[i as int] == *entry);
                }
                if program_named(part, prefix@, n) {
                    let k = choose|k: int|
                        0 <= k < part.len() && is_program(#[trigger] part[k], prefix@)
                            && part[k].name@ == n;
                    if k < i {
                        assert(part[k] == old_part[k]);
                    }
                }
            }
        }
        i = i + 1;
    }
    let ghost all = texts(list@);
    assert(entries@.take(i as int) =~= entries@);
    let ordered = sort_texts(list);
    proof {
        law_sort_sorts(all, key_of::<String>());
        law_sort_keeps_items(all, key_of::<String>());
        assert forall|n: Seq<char>| texts(ordered@).contains(n) <==> #[trigger] all.contains(
            n,
        ) by {
            broadcast use vstd::seq_lib::group_to_multiset_ensures;

            assert(texts(ordered@).to_multiset().count(n) == all.to_multiset().count(n));
        }
    }
    let r = unique(ordered);
    assert forall|n: Seq<char>| #[trigger] texts(r@).contains(n) <==> program_named(
        entries@,
        prefix@,
        n,
    ) by {
        assert(texts(r@).contains(n) <==> all.contains(n));
    }
    r
}

/// The first path whose file can be executed, of the paths at which a program is looked for,
/// in order. The permissions are unknown where there is no file.
pub open spec fn first_executable(probed: Seq<(Seq<char>, Option<u32>)>) -> Option<Seq<char>>
    decreases probed.len(),
{
    if probed.len() == 0 {
        None
    } else if executable(probed[0].1) {
        Some(probed[0].0)
    } else {
        first_executable(probed.skip(1))
    }
}

/// Paths and permissions, the paths by their characters.
pub open spec fn probes(probed: Seq<(String, Option<u32>)>) -> Seq<(Seq<char>, Option<u32>)> {
    Seq::new(probed.len(), |i: int| (probed[i].0@, probed[i].1))
}

/// The first path whose file can be executed.
pub fn find_executable_in_path(probed: &[(String, Option<u32>)]) -> (r: Option<String>)
    ensures
        opt_text(r) == first_executable(probes(probed@)),
{
    let ghost all = probes(probed@);
    let mut i: usize = 0;
    assert(all.skip(0) =~= all);
    while i < probed.len()
        invariant
            i <= probed@.len(),
            all == probes(probed@),
            first_executable(all.skip(i as int)) == first_executable(all),
        decreases probed@.len() - i,
    {
        assert(all.skip(i as int)[0] == all[i as int]);
        assert(all.skip(i as int).skip(1) =~= all.skip(i + 1));
        if is_executable(probed[i].1) {
            return Some(probed[i].0.clone());
        }
        i = i + 1;
    }
    None
}

/// Whether an entry is offered for a file's name that starts with `prefix`.
pub open spec fn offered(entry: (Seq<char>, bool), prefix: Seq<char>) -> bool {
    entry.0 != "."@ && entry.0 != ".."@ && prefix.is_prefix_of(entry.0)
}

/// The entries of a directory that start with `prefix`, by name; a mark tells directories.
pub open spec fn matching_files(
    prefix: Seq<char>,
    entries: Seq<(Seq<char>, bool)>,
) -> Seq<(Seq<char>, bool)> {
    sort(
        entries.filter(|e: (Seq<char>, bool)| offered(e, prefix)),
        key_of::<(String, bool)>(),
    )
}

/// The entries of a directory that start with `prefix`, by name.
pub fn find_files_matching(prefix: &str, entries: &[(String, bool)]) -> (r: Vec<(String, bool)>)
    ensures
        views(r@) == matching_files(prefix@, views(entries@)),
{
    let ghost all = views(entries@);
    let ghost test = |e: (Seq<char>, bool)| offered(e, prefix@);
    let mut out: Vec<(String, bool)> = Vec::new();
    let mut i: usize = 0;
    proof {
        reveal(Seq::filter);
        assert(views(out@) =~= all.take(0).filter(test));
    }
    while i < entries.len()
        invariant
            i <= entries@.len(),
            all == views(entries@),
            test == (|e: (Seq<char>, bool)| offered(e, prefix@)),
            views(out@) == all.take(i as int).filter(test),
        decreases entries@.len() - i,
    {
        let ghost before = views(out@);
        let name = entries[i].0.as_str();
        proof {
            reveal(Seq::filter);
            assert(all.take(i + 1).drop_last() =~= all.take(i as int));
            assert(all.take(i + 1).last() == all[i as int]);
            assert(all[i as int] == (name@, entries@[i as int].1));
        }
        if !same(name, ".") && !same(name, "..") && starts_with(name, prefix) {
            out.push((name.to_owned(), entries[i].1));
            assert(views(out@) =~= before.push(all[i as int]));
        }
        i = i + 1;
    }
    assert(all.take(i as int) =~= all);
    sort_by_name(out)
}

/// A step on the way through the directory tree: to the parent, or down to a name.
pub enum Move {
    Up,
    Down(String),
}

/// What a `Move` stands for.
pub enum MoveView {
    Up,
    Down(Seq<char>),
}

impl View for Move {
    type V = MoveView;

    open spec fn view(&self) -> MoveView {
        match *self {
            Move::Up => MoveView::Up,
            Move::Down(name) => MoveView::Down(name@),
        }
    }
}

/// Whether a part of a path leads somewhere: an empty part and a dot do not.
pub open spec fn is_move(part: Seq<char>) -> bool {
    part.len() > 0 && part != "."@
}

/// Where a part of a path leads: up for two dots, else down.
pub open spec fn move_of(part: Seq<char>) -> MoveView {
    if part == ".."@ {
        MoveView::Up
    } else {
        MoveView::Down(part)
    }
}

/// The steps that the parts of a path stand for.
pub open spec fn moves_of(parts: Seq<Seq<char>>) -> Seq<MoveView> {
    parts.filter(|part: Seq<char>| is_move(part)).map_values(|part: Seq<char>| move_of(part))
}

/// The steps that a path stands for, one for each part between slashes that leads somewhere.
pub open spec fn moves(path: Seq<char>) -> Seq<MoveView> {
    moves_of(split(path, equals('/')))
}

/// The place that one step leads to, places given by the names on the way from the root: a
/// step up leads to the parent, and stays at the root there.
pub open spec fn step(place: Seq<Seq<char>>, m: MoveView) -> Seq<Seq<char>> {
    match m {
        MoveView::Up => if place.len() > 0 {
            place.drop_last()
        } else {
            place
        },
        MoveView::Down(name) => place.push(name),
    }
}

/// The place that steps lead to, one after the other.
pub open spec fn reach(place: Seq<Seq<char>>, steps: Seq<MoveView>) -> Seq<Seq<char>>
    decreases steps.len(),
{
    if steps.len() == 0 {
        place
    } else {
        step(reach(place, steps.drop_last()), steps.last())
    }
}

proof fn lemma_moves_concat(a: Seq<Seq<char>>, b: Seq<Seq<char>>)
    ensures
        moves_of(a + b) == moves_of(a) + moves_of(b),
{
    Seq::filter_distributes_over_add(a, b, |part: Seq<char>| is_move(part));
    assert(moves_of(a + b) =~= moves_of(a) + moves_of(b));
}

proof fn lemma_moves_single(part: Seq<char>)
    ensures
        moves_of(seq![part]) == if is_move(part) {
            seq![move_of(part)]
        } else {
            Seq::empty()
        },
{
    reveal_with_fuel(Seq::filter, 2);
    assert(seq![part].drop_last() =~= Seq::empty());
    assert(moves_of(seq![part]) =~= if is_move(part) {
        seq![move_of(part)]
    } else {
        Seq::empty()
    });
}

/// The steps from the current directory that a path stands for which does not start at the
/// root.
pub fn resolve_relative_path(target_dir: &str) -> (r: Vec<Move>)
    ensures
        views(r@) == moves(target_dir@),
{
    let parts = split_text(target_dir, '/');
    let ghost all = texts(parts@);
    let mut out: Vec<Move> = Vec::new();
    let mut i: usize = 0;
    proof {
        reveal(Seq::filter);
        assert(views(out@) =~= moves_of(all.take(0)));
    }
    while i < parts.len()
        invariant
            i <= parts@.len(),
            all == texts(parts@),
            views(out@) == moves_of(all.take(i as int)),
        decreases parts@.len() - i,
    {
        let part = parts[i].as_str();
        let ghost before = views(out@);
        proof {
            lemma_moves_concat(all.take(i as int), seq![part@]);
            lemma_moves_single(part@);
            assert(all.take(i + 1) =~= all.take(i as int) + seq![part@]);
        }
        if part.is_empty() || same(part, ".") {
            assert(before =~= before + Seq::<MoveView>::empty());
        } else if same(part, "..") {
            out.push(Move::Up);
            assert(views(out@) =~= before + seq![MoveView::Up]);
        } else {
            out.push(Move::Down(part.to_owned()));
            assert(views(out@) =~= before + seq![MoveView::Down(part@)]);
        }
        i = i + 1;
    }
    assert(all.take(i as int) =~= all);
    out
}

/// A path in which a tilde at the front, alone or before a slash, is replaced by the home
/// directory, if there is one.
pub open spec fn tilde_expanded(path: Seq<char>, home: Option<Seq<char>>) -> Seq<char> {
    if home is Some && path == "~"@ {
        home->0
    } else if home is Some && "~/"@.is_prefix_of(path) {
        home->0 + path.skip(1)
    } else {
        path
    }
}

/// The path with the tilde at its front replaced by the home directory.
pub fn expand_tilde(path: &str, home: &Option<String>) -> (r: String)
    ensures
        r@ == tilde_expanded(path@, opt_text(*home)),
{
    match home {
        Some(dir) => if same(path, "~") {
            dir.clone()
        } else if starts_with(path, "~/") {
            let chars = to_chars(path);
            proof {
                reveal_strlit("~/");
            }
            let rest = from_chars(slice_subrange(chars.as_slice(), 1, chars.len()));
            assert(rest@ =~= path@.skip(1));
            let mut out = dir.clone();
            out.append(&rest);
            out
        } else {
            path.to_owned()
        },
        None => path.to_owned(),
    }
}

/// A directory to go to: given from the root, or from where one is.
pub enum Destination {
    Absolute(String),
    Relative(String),
}

/// Whether `d` is where `cd` leads for the path as it was written.
pub open spec fn leads_to(path: Seq<char>, home: Option<Seq<char>>, d: Destination) -> bool {
    let expanded = tilde_expanded(path, home);
    if expanded.len() > 0 && expanded[0] == '/' {
        d matches Destination::Absolute(p) && p@ == expanded
    } else {
        d matches Destination::Relative(p) && p@ == expanded
    }
}

/// Where `cd` leads for the path as it was written.
pub fn destination(path: &str, home: &Option<String>) -> (d: Destination)
    ensures
        leads_to(path@, opt_text(*home), d),
{
    let expanded = expand_tilde(path, home);
    if !expanded.as_str().is_empty() && expanded.as_str().get_char(0) == '/' {
        Destination::Absolute(expanded)
    } else {
        Destination::Relative(expanded)
    }
}

/// Every entry offered for a file's name starts with what was typed of the name, is none of
/// the directory's links to itself and its parent, and is an entry of the directory.
pub proof fn law_matching_files_start_with_prefix(
    prefix: Seq<char>,
    entries: Seq<(Seq<char>, bool)>,
)
    ensures
        forall|i: int|
            0 <= i < matching_files(prefix, entries).len() ==> {
                &&& offered(#[trigger] matching_files(prefix, entries)[i], prefix)
                &&& entries.contains(matching_files(prefix, entries)[i])
            },
{
    let test = |e: (Seq<char>, bool)| offered(e, prefix);
    let all = entries.filter(test);
    let list = matching_files(prefix, entries);
    law_sort_keeps_items(all, key_of::<(String, bool)>());
    assert forall|i: int| 0 <= i < list.len() implies offered(#[trigger] list[i], prefix)
        && entries.contains(list[i]) by {
        broadcast use vstd::seq_lib::group_to_multiset_ensures;

        assert(list.contains(list[i]));
        assert(all.to_multiset().count(list[i]) > 0);
        assert(all.contains(list[i]));
        let k = choose|k: int| 0 <= k < all.len() && all[k] == list[i];
        entries.lemma_filter_pred(test, k);
        entries.lemma_filter_contains_rev(test, list[i]);
    }
}

/// Following a path made of two, with a slash between, is following one after the other.
pub proof fn law_moves_in_two_parts(a: Seq<char>, b: Seq<char>)
    ensures
        moves(a.push('/') + b) == moves(a) + moves(b),
{
    lemma_split_at(a, '/', b, equals('/'));
    lemma_moves_concat(split(a, equals('/')), split(b, equals('/')));
}

/// A name alone leads down, and with two dots after it up again.
pub proof fn law_down_and_up(name: Seq<char>)
    requires
        name.len() > 0,
        !name.contains('/'),
        name != "."@,
        name != ".."@,
    ensures
        moves(name) == seq![MoveView::Down(name)],
        moves(name.push('/') + ".."@) == seq![MoveView::Down(name), MoveView::Up],
{
    law_moves_in_two_parts(name, ".."@);
    reveal_strlit("..");
    reveal_strlit(".");
    assert forall|i: int| 0 <= i < name.len() implies !equals('/')(#[trigger] name[i]) by {
        assert(name.contains(name[i]));
    }
    lemma_split_whole(name, equals('/'));
    lemma_split_whole(".."@, equals('/'));
    lemma_moves_single(name);
    lemma_moves_single(".."@);
    assert(seq![MoveView::Down(name)] + seq![MoveView::Up] =~= seq![
        MoveView::Down(name),
        MoveView::Up,
    ]);
}

proof fn lemma_reach_concat(place: Seq<Seq<char>>, a: Seq<MoveView>, b: Seq<MoveView>)
    ensures
        reach(place, a + b) == reach(reach(place, a), b),
    decreases b.len(),
{
    if b.len() == 0 {
        assert(a + b =~= a);
    } else {
        lemma_reach_concat(place, a, b.drop_last());
        assert((a + b).drop_last() =~= a + b.drop_last());
    }
}

/// A path made of two, with a slash between, leads where the second one leads from where the
/// first one leads.
pub proof fn law_reach_in_two_parts(place: Seq<Seq<char>>, a: Seq<char>, b: Seq<char>)
    ensures
        reach(place, moves(a.push('/') + b)) == reach(reach(place, moves(a)), moves(b)),
{
    law_moves_in_two_parts(a, b);
    lemma_reach_concat(place, moves(a), moves(b));
}

/// Going down to a directory leads to the name below the place, and going up again leads back.
pub proof fn law_down_and_up_leads_back(place: Seq<Seq<char>>, name: Seq<char>)
    requires
        name.len() > 0,
        !name.contains('/'),
        name != "."@,
        name != ".."@,
    ensures
        reach(place, moves(name)) == place.push(name),
        reach(place, moves(name.push('/') + ".."@)) == place,
{
    law_down_and_up(name);
    reveal_with_fuel(reach, 3);
    let down = seq![MoveView::Down(name)];
    let both = seq![MoveView::Down(name), MoveView::Up];
    assert(down.drop_last() =~= Seq::empty());
    assert(both.drop_last() =~= down);
    assert(place.push(name).drop_last() =~= place);
}

/// `n` steps up lead `n` names up, and at most to the root, where they stay.
pub proof fn law_going_up_ends_at_the_root(place: Seq<Seq<char>>, n: nat)
    ensures
        reach(place, Seq::new(n, |i: int| MoveView::Up)) == if n < place.len() {
            place.take(place.len() - n)
        } else {
            Seq::empty()
        },
    decreases n,
{
    let ups = Seq::new(n, |i: int| MoveView::Up);
    if n == 0 {
        assert(place.take(place.len() as int) =~= place);
        assert(place.len() == 0 ==> place =~= Seq::empty());
    } else {
        let m = (n - 1) as nat;
        law_going_up_ends_at_the_root(place, m);
        assert(ups.drop_last() =~= Seq::new(m, |i: int| MoveView::Up));
        if n <= place.len() {
            assert(place.take(place.len() - m).drop_last() =~= place.take(place.len() - n));
            assert(n == place.len() ==> place.take(0) =~= Seq::empty());
        }
    }
}

/// A step down never names the directory itself or its parent, and holds no slash.
pub proof fn law_moves_down_to_names(path: Seq<char>)
    ensures
        forall|i: int|
            0 <= i < moves(path).len() ==> (#[trigger] moves(path)[i] matches MoveView::Down(name)
                ==> name.len() > 0 && name != "."@ && name != ".."@ && !name.contains('/')),
{
    let parts = split(path, equals('/'));
    let test = |part: Seq<char>| is_move(part);
    let kept = parts.filter(test);
    lemma_split_pieces(path, equals('/'));
    assert forall|i: int| 0 <= i < moves(path).len() implies (
    #[trigger] moves(path)[i] matches MoveView::Down(name) ==> name.len() > 0 && name != "."@
        && name != ".."@ && !name.contains('/')) by {
        parts.lemma_filter_pred(test, i);
        assert(kept.contains(kept[i]));
        parts.lemma_filter_contains_rev(test, kept[i]);
        let k = choose|k: int| 0 <= k < parts.len() && parts[k] == kept[i];
        assert forall|j: int| 0 <= j < kept[i].len() implies kept[i][j] != '/' by {
            assert(!equals('/')(parts[k][j]));
        }
    }
}

/// A longer prefix narrows what is offered: the programs and the files offered for it are
/// exactly those offered for the shorter one that start with the longer one.
pub proof fn law_longer_prefix_narrows(
    short: Seq<char>,
    long: Seq<char>,
    programs: Seq<ProgramEntry>,
    name: Seq<char>,
    entries: Seq<(Seq<char>, bool)>,
)
    requires
        short.is_prefix_of(long),
    ensures
        program_named(programs, long, name) <==> program_named(programs, short, name)
            && long.is_prefix_of(name),
        matching_files(long, entries) == matching_files(short, entries).filter(
            |e: (Seq<char>, bool)| long.is_prefix_of(e.0),
        ),
{
    if program_named(programs, long, name) {
        let i = choose|i: int|
            0 <= i < programs.len() && is_program(#[trigger] programs[i], long)
                && programs[i].name@ == name;
        lemma_prefix_trans(short, long, programs[i].name@);
        assert(is_program(programs[i], short));
    }
    if program_named(programs, short, name) && long.is_prefix_of(name) {
        let i = choose|i: int|
            0 <= i < programs.len() && is_program(#[trigger] programs[i], short)
                && programs[i].name@ == name;
        assert(is_program(programs[i], long));
    }
    let starts = |e: (Seq<char>, bool)| long.is_prefix_of(e.0);
    let wide = |e: (Seq<char>, bool)| offered(e, short);
    lemma_offered_narrows(short, long, entries);
    lemma_sort_filter(entries.filter(wide), key_of::<(String, bool)>(), starts);
}

proof fn lemma_offered_narrows(
    short: Seq<char>,
    long: Seq<char>,
    entries: Seq<(Seq<char>, bool)>,
)
    requires
        short.is_prefix_of(long),
    ensures
        entries.filter(|e: (Seq<char>, bool)| offered(e, long)) == entries.filter(
            |e: (Seq<char>, bool)| offered(e, short),
        ).filter(|e: (Seq<char>, bool)| long.is_prefix_of(e.0)),
    decreases entries.len(),
{
    reveal(Seq::filter);
    let starts = |e: (Seq<char>, bool)| long.is_prefix_of(e.0);
    let wide = |e: (Seq<char>, bool)| offered(e, short);
    if entries.len() > 0 {
        let rest = entries.drop_last();
        let last = entries.last();
        lemma_offered_narrows(short, long, rest);
        if offered(last, long) {
            lemma_prefix_trans(short, long, last.0);
        }
        if wide(last) {
            assert(rest.filter(wide).push(last).drop_last() =~= rest.filter(wide));
        }
    }
}

/// The program that is found is one of those looked for, can be executed, and no program
/// before it can.
pub proof fn law_first_executable(probed: Seq<(Seq<char>, Option<u32>)>)
    ensures
        first_executable(probed) is None <==> forall|i: int|
            0 <= i < probed.len() ==> !executable((#[trigger] probed[i]).1),
        first_executable(probed) matches Some(path) ==> exists|k: int|
            0 <= k < probed.len() && (#[trigger] probed[k]).0 == path && executable(probed[k].1)
                && forall|i: int| 0 <= i < k ==> !executable((#[trigger] probed[i]).1),
    decreases probed.len(),
{
    if probed.len() > 0 {
        let rest = probed.skip(1);
        law_first_executable(rest);
        if executable(probed[0].1) {
            assert(probed[0].0 == first_executable(probed)->0);
        } else if first_executable(rest) is Some {
            let path = first_executable(rest)->0;
            let k = choose|k: int|
                0 <= k < rest.len() && (#[trigger] rest[k]).0 == path && executable(rest[k].1)
                    && forall|i: int| 0 <= i < k ==> !executable((#[trigger] rest[i]).1);
            assert(probed[k + 1] == rest[k]);
            assert forall|i: int| 0 <= i < k + 1 implies !executable((#[trigger] probed[i]).1) by {
                if i > 0 {
                    assert(probed[i] == rest[i - 1]);
                }
            }
        } else {
            assert forall|i: int| 0 <= i < probed.len() implies !executable(
                (#[trigger] probed[i]).1,
            ) by {
                if i > 0 {
                    assert(probed[i] == rest[i - 1]);
                }
            }
        }
    }
}

/// A file can be executed exactly if its permissions are known and one of the three bits for it
/// is set, whatever the others are.
pub proof fn law_executable(mode: u32)
    ensures
        executable(Some(mode)) <==> mode & 0o111 != 0,
        !executable(None),
{
    assert((mode & 0o111 != 0) <==> (mode & 0o100 != 0 || mode & 0o010 != 0 || mode & 0o001 != 0))
        by (bit_vector);
}

/// A name is that of a program exactly if an entry of this name is a regular file that can be
/// executed, and the name starts with the prefix, whatever the directory of the entry.
pub proof fn law_programs(entries: Seq<ProgramEntry>, prefix: Seq<char>, name: Seq<char>)
    ensures
        program_named(entries, prefix, name) <==> prefix.is_prefix_of(name) && exists|i: int|
            0 <= i < entries.len() && (#[trigger] entries[i]).name@ == name && entries[i].is_file
                && executable(entries[i].mode),
{
    if program_named(entries, prefix, name) {
        let i = choose|i: int|
            0 <= i < entries.len() && is_program(#[trigger] entries[i], prefix)
                && entries[i].name@ == name;
        assert(entries[i].name@ == name && entries[i].is_file && executable(entries[i].mode));
    }
    if prefix.is_prefix_of(name) && exists|i: int|
        0 <= i < entries.len() && (#[trigger] entries[i]).name@ == name && entries[i].is_file
            && executable(entries[i].mode) {
        let i = choose|i: int|
            0 <= i < entries.len() && (#[trigger] entries[i]).name@ == name && entries[i].is_file
                && executable(entries[i].mode);
        assert(is_program(entries[i], prefix));
    }
}

/// The files offered are those entries whose names start with the prefix, without the
/// directory's links to itself and its parent: each as often as it is there, by name, and
/// entries of one name in the order in which they stand.
pub proof fn law_matching_files(
    prefix: Seq<char>,
    entries: Seq<(Seq<char>, bool)>,
    name: Seq<char>,
)
    ensures
        matching_files(prefix, entries).to_multiset() == entries.filter(
            |e: (Seq<char>, bool)| e.0 != "."@ && e.0 != ".."@ && prefix.is_prefix_of(e.0),
        ).to_multiset(),
        forall|i: int, j: int|
            0 <= i <= j < matching_files(prefix, entries).len() ==> le(
                (#[trigger] matching_files(prefix, entries)[i]).0,
                (#[trigger] matching_files(prefix, entries)[j]).0,
            ),
        matching_files(prefix, entries).filter(|e: (Seq<char>, bool)| e.0 == name)
            == entries.filter(
            |e: (Seq<char>, bool)| e.0 != "."@ && e.0 != ".."@ && prefix.is_prefix_of(e.0),
        ).filter(|e: (Seq<char>, bool)| e.0 == name),
{
    let key = key_of::<(String, bool)>();
    let test = |e: (Seq<char>, bool)| offered(e, prefix);
    let all = entries.filter(test);
    assert(test =~= (|e: (Seq<char>, bool)|
        e.0 != "."@ && e.0 != ".."@ && prefix.is_prefix_of(e.0)));
    law_sort_keeps_items(all, key);
    law_sort_sorts(all, key);
    law_sort_stable(all, key, name);
    assert(has_key(key, name) =~= (|e: (Seq<char>, bool)| e.0 == name));
    assert forall|i: int, j: int| 0 <= i <= j < matching_files(prefix, entries).len() implies le(
        (#[trigger] matching_files(prefix, entries)[i]).0,
        (#[trigger] matching_files(prefix, entries)[j]).0,
    ) by {
        let list = sort(all, key);
        assert(le(key(list[i]), key(list[j])));
    }
}

/// A path of one part: nothing and a dot lead nowhere, two dots lead up, and everything else
/// leads down to a name.
pub proof fn law_moves_of_one_part(part: Seq<char>)
    requires
        !part.contains('/'),
    ensures
        moves(part) == if part.len() == 0 || part == "."@ {
            Seq::empty()
        } else if part == ".."@ {
            seq![MoveView::Up]
        } else {
            seq![MoveView::Down(part)]
        },
{
    reveal_strlit("..");
    reveal_strlit(".");
    assert forall|i: int| 0 <= i < part.len() implies !equals('/')(#[trigger] part[i]) by {
        assert(part.contains(part[i]));
    }
    lemma_split_whole(part, equals('/'));
    lemma_moves_single(part);
}

/// A tilde alone is the home directory, and one before a slash stands for it; a tilde elsewhere,
/// or before another character, stands for itself, and so it does without a home directory.
pub proof fn law_tilde(path: Seq<char>, home: Seq<char>, rest: Seq<char>)
    ensures
        tilde_expanded(path, None) == path,
        tilde_expanded("~"@, Some(home)) == home,
        tilde_expanded("~/"@ + rest, Some(home)) == home + "/"@ + rest,
        path != "~"@ && !"~/"@.is_prefix_of(path) ==> tilde_expanded(path, Some(home)) == path,
{
    reveal_strlit("~");
    reveal_strlit("~/");
    reveal_strlit("/");
    let p = "~/"@ + rest;
    assert("~/"@ =~= p.subrange(0, 2));
    assert(p.skip(1) =~= "/"@ + rest);
    assert(home + ("/"@ + rest) =~= home + "/"@ + rest);
    assert(p.len() >= 2);
}

/// `cd` leads to the path with its tilde expanded: from the root if that starts with a slash,
/// and else from the current directory.
pub proof fn law_destinations(path: Seq<char>, home: Option<Seq<char>>, d: Destination)
    requires
        leads_to(path, home, d),
    ensures
        ({
            let expanded = tilde_expanded(path, home);
            &&& d is Absolute <==> expanded.len() > 0 && expanded[0] == '/'
            &&& d matches Destination::Absolute(p) ==> p@ == expanded
            &&& d matches Destination::Relative(p) ==> p@ == expanded
        }),
{
}

/// Names that stand in order, each of them once, are sorted and hold no name twice.
pub proof fn law_increasing(names: Seq<Seq<char>>)
    requires
        increasing(names),
    ensures
        names.no_duplicates(),
        forall|i: int, j: int|
            0 <= i < j < names.len() ==> le(#[trigger] names[i], #[trigger] names[j]),
{
    assert forall|i: int, j: int| 0 <= i < names.len() && 0 <= j < names.len() && i
        != j implies names[i] != names[j] by {
        if i < j {
            assert(le(names[i], names[j]) && names[i] != names[j]);
        } else {
            assert(le(names[j], names[i]) && names[j] != names[i]);
        }
    }
}

} // verus!
