//! Completion of what is being typed.
use vstd::hash_map::StringHashMap;
use vstd::prelude::*;
use vstd::string::*;
use vstd::utf8::*;

use crate::format::{decimal, decimal_text};
use crate::order::{
    key_of, law_sort_keeps_items, law_sort_sorts, le, sort, sort_names, sort_texts,
};
use crate::split::{
    after_last, cut_last, equals, law_pieces, lemma_last, lemma_no_last, lemma_split_nonempty,
    lemma_split_pieces, lines, nonempty, nonempty_lines, split, split_text, through_last, trim,
    trim_text,
};
use crate::text::{byte_len, lemma_encoding_concat, texts};
use crate::words::{parse_command_with_quotes, words};

verus! {

/// Which script completes the arguments of which command.
pub struct CompletionTable {
    scripts: StringHashMap<String>,
}

impl View for CompletionTable {
    type V = Map<Seq<char>, Seq<char>>;

    closed spec fn view(&self) -> Map<Seq<char>, Seq<char>> {
        self.scripts@.map_values(|s: String| s@)
    }
}

impl CompletionTable {
    /// A table without scripts.
    pub fn new() -> (r: Self)
        ensures
            r@ == Map::<Seq<char>, Seq<char>>::empty(),
    {
        let r = CompletionTable { scripts: StringHashMap::new() };
        assert(r@ =~= Map::<Seq<char>, Seq<char>>::empty());
        r
    }

    /// The script that completes the arguments of a command.
    pub fn lookup(&self, command: &str) -> (r: Option<String>)
        ensures
            r is Some <==> self@.contains_key(command@),
            r matches Some(script) ==> script@ == self@[command@],
    {
        match self.scripts.get(command) {
            Some(script) => Some(script.clone()),
            None => None,
        }
    }

    /// Lets a script complete the arguments of a command, in place of the one before.
    pub fn register(&mut self, command: &str, script: &str)
        ensures
            final(self)@ == old(self)@.insert(command@, script@),
    {
        self.scripts.insert(command.to_owned(), script.to_owned());
        assert(self@ =~= old(self)@.insert(command@, script@));
    }

    /// Lets no script complete the arguments of a command.
    pub fn unregister(&mut self, command: &str)
        ensures
            final(self)@ == old(self)@.remove(command@),
    {
        self.scripts.remove(command);
        assert(self@ =~= old(self)@.remove(command@));
    }
}

/// How a completion script is called: its arguments and the variables of its environment.
pub struct CompleterCall {
    pub script: String,
    pub command_name: String,
    pub current_word: String,
    pub previous_word: String,
    pub comp_line: String,
    pub comp_point: String,
}

/// What a `CompleterCall` stands for.
pub struct CallView {
    pub script: Seq<char>,
    pub command_name: Seq<char>,
    pub current_word: Seq<char>,
    pub previous_word: Seq<char>,
    pub comp_line: Seq<char>,
    pub comp_point: Seq<char>,
}

impl View for CompleterCall {
    type V = CallView;

    open spec fn view(&self) -> CallView {
        CallView {
            script: self.script@,
            command_name: self.command_name@,
            current_word: self.current_word@,
            previous_word: self.previous_word@,
            comp_line: self.comp_line@,
            comp_point: self.comp_point@,
        }
    }
}

/// The call of a script for one of the words of a command: it is told the command, the
/// word, the word before it, the line, and the place of the cursor in it.
pub open spec fn call(
    script: Seq<char>,
    parts: Seq<Seq<char>>,
    index: int,
    line: Seq<char>,
    point: nat,
) -> CallView {
    CallView {
        script,
        command_name: parts[0],
        current_word: parts[index],
        previous_word: if index > 0 {
            parts[index - 1]
        } else {
            Seq::empty()
        },
        comp_line: line,
        comp_point: decimal(point),
    }
}

/// The call of a script for one of the words of a command.
pub fn completer_call(
    script_path: &str,
    cmd_parts: &[String],
    word_index: usize,
    comp_line: &str,
    comp_point: usize,
) -> (r: CompleterCall)
    requires
        word_index < cmd_parts@.len(),
    ensures
        r@ == call(
            script_path@,
            texts(cmd_parts@),
            word_index as int,
            comp_line@,
            comp_point as nat,
        ),
{
    CompleterCall {
        script: script_path.to_owned(),
        command_name: cmd_parts[0].clone(),
        current_word: cmd_parts[word_index].clone(),
        previous_word: if word_index > 0 {
            cmd_parts[word_index - 1].clone()
        } else {
            String::new()
        },
        comp_line: comp_line.to_owned(),
        comp_point: decimal_text(comp_point),
    }
}

/// `String::from_utf8` gives the text that the bytes encode where they are valid UTF-8,
/// and an error where they are not.
#[verifier::external_body]
fn decode(bytes: Vec<u8>) -> (r: Option<String>)
    ensures
        r is Some <==> valid_utf8(bytes@),
        r matches Some(s) ==> s@ == decode_utf8(bytes@),
{
    String::from_utf8(bytes).ok()
}

/// The candidates that a script has printed: its lines that are not empty, in order.
/// None if it failed, printed no valid UTF-8, or printed no such line.
pub open spec fn candidates(success: bool, stdout: Seq<u8>) -> Option<Seq<Seq<char>>> {
    if success && valid_utf8(stdout) && nonempty(lines(decode_utf8(stdout))).len() > 0 {
        Some(sort_names(nonempty(lines(decode_utf8(stdout)))))
    } else {
        None
    }
}

/// The candidates that a script has printed.
pub fn completer_candidates(success: bool, stdout: Vec<u8>) -> (r: Option<Vec<String>>)
    ensures
        r is Some <==> candidates(success, stdout@) is Some,
        r matches Some(list) ==> texts(list@) == candidates(success, stdout@)->0,
{
    if !success {
        return None;
    }
    let text = decode(stdout);
    if text.is_none() {
        return None;
    }
    let list = nonempty_lines(&text.unwrap());
    if list.len() == 0 {
        return None;
    }
    Some(sort_texts(list))
}

/// The text that `String::from_utf8_lossy` makes of bytes.
pub uninterp spec fn lossy_text(bytes: Seq<u8>) -> Seq<char>;

/// `String::from_utf8_lossy` gives the text that the bytes encode where they are valid
/// UTF-8; what it puts in place of invalid bytes depends on the bytes alone.
#[verifier::external_body]
fn decode_lossy(bytes: &[u8]) -> (r: String)
    ensures
        r@ == lossy_text(bytes@),
        valid_utf8(bytes@) ==> r@ == decode_utf8(bytes@),
{
    String::from_utf8_lossy(bytes).into_owned()
}

/// What is said of a script that failed with the given complaint.
pub fn completer_complaint(complaint: &str) -> (r: String)
    ensures
        r@ == "Completer error: "@ + complaint@,
{
    let mut out = "Completer error: ".to_owned();
    out.append(complaint);
    out
}

/// What is said of a script that failed, after what it printed on its error stream.
pub fn completer_error(stderr: &[u8]) -> (r: String)
    ensures
        r@ == "Completer error: "@ + lossy_text(stderr@),
        valid_utf8(stderr@) ==> r@ == "Completer error: "@ + decode_utf8(stderr@),
{
    completer_complaint(&decode_lossy(stderr))
}

/// What is to be completed, and what has to be asked for it.
pub enum Plan {
    /// Nothing has been typed.
    Nothing,
    /// There is a script for the command, but no word for it to complete.
    Idle,
    /// The name of a command is being typed.
    Command { word: String, completer: Option<CompleterCall> },
    /// An argument is being typed. It starts at byte `start` of the line; as a path it is
    /// `base` followed by `prefix`, and names an entry of the directory `dir`. For a
    /// script the word to complete is `word`.
    Argument {
        start: usize,
        word: String,
        completer: Option<CompleterCall>,
        dir: String,
        prefix: String,
        base: String,
    },
}

/// What a `Plan` stands for.
pub enum PlanView {
    Nothing,
    Idle,
    Command { word: Seq<char>, completer: Option<CallView> },
    Argument {
        start: nat,
        word: Seq<char>,
        completer: Option<CallView>,
        dir: Seq<char>,
        prefix: Seq<char>,
        base: Seq<char>,
    },
}

/// What an optional call stands for.
pub open spec fn opt_call(c: Option<CompleterCall>) -> Option<CallView> {
    match c {
        Some(c) => Some(c@),
        None => None,
    }
}

impl View for Plan {
    type V = PlanView;

    open spec fn view(&self) -> PlanView {
        match *self {
            Plan::Nothing => PlanView::Nothing,
            Plan::Idle => PlanView::Idle,
            Plan::Command { word, completer } => PlanView::Command {
                word: word@,
                completer: opt_call(completer),
            },
            Plan::Argument { start, word, completer, dir, prefix, base } => PlanView::Argument {
                start: start as nat,
                word: word@,
                completer: opt_call(completer),
                dir: dir@,
                prefix: prefix@,
                base: base@,
            },
        }
    }
}

/// What stands before the cursor: the text of the first `pos` bytes of the line.
pub open spec fn typed(line: Seq<char>, pos: nat) -> Seq<char> {
    decode_utf8(encode_utf8(line).subrange(0, pos as int))
}

/// The first word of a command line, for finding its script: white space at the ends
/// removed, up to the first space.
pub open spec fn base_command(text: Seq<char>) -> Seq<char> {
    split(trim(text), equals(' '))[0]
}

/// What is to be completed with the cursor at byte `pos` of the line.
pub open spec fn plan(line: Seq<char>, pos: nat, table: Map<Seq<char>, Seq<char>>) -> PlanView {
    let slice = typed(line, pos);
    if slice.len() == 0 {
        PlanView::Nothing
    } else if !slice.contains(' ') {
        PlanView::Command {
            word: slice,
            completer: if table.contains_key(slice) {
                Some(call(table[slice], seq![slice], 0, line, pos))
            } else {
                None
            },
        }
    } else {
        let head = through_last(slice, ' ');
        let partial = after_last(slice, ' ');
        let command = base_command(head.drop_last());
        let parts = words(slice);
        if table.contains_key(command) && parts.len() == 0 {
            PlanView::Idle
        } else {
            PlanView::Argument {
                start: encode_utf8(head).len(),
                word: if table.contains_key(command) {
                    parts.last()
                } else {
                    Seq::empty()
                },
                completer: if table.contains_key(command) {
                    Some(call(table[command], parts, parts.len() - 1, line, pos))
                } else {
                    None
                },
                dir: if partial.contains('/') {
                    through_last(partial, '/')
                } else {
                    "."@
                },
                prefix: after_last(partial, '/'),
                base: through_last(partial, '/'),
            }
        }
    }
}

/// What stands before the cursor.
fn typed_text(line: &str, pos: usize) -> (r: String)
    requires
        is_char_boundary(encode_utf8(line@), pos as int),
    ensures
        r@ == typed(line@, pos as nat),
{
    let (before, _after) = line.split_at(pos);
    proof {
        encode_utf8_decode_utf8(before@);
    }
    before.to_owned()
}

/// The text without its last character.
fn without_last(s: &str) -> (r: String)
    requires
        s@.len() > 0,
    ensures
        r@ == s@.drop_last(),
{
    let n = s.unicode_len();
    s.substring_char(0, n - 1).to_owned()
}

/// What is to be completed with the cursor at byte `pos` of the line.
pub fn plan_completion(line: &str, pos: usize, table: &CompletionTable) -> (r: Plan)
    requires
        is_char_boundary(encode_utf8(line@), pos as int),
    ensures
        r@ == plan(line@, pos as nat, table@),
{
    let slice = typed_text(line, pos);
    if slice.as_str().is_empty() {
        return Plan::Nothing;
    }
    match cut_last(&slice, ' ') {
        None => {
            let completer = match table.lookup(&slice) {
                Some(script) => {
                    let mut parts: Vec<String> = Vec::new();
                    parts.push(slice.clone());
                    assert(texts(parts@) =~= seq![slice@]);
                    Some(completer_call(&script, &parts, 0, line, pos))
                },
                None => None,
            };
            Plan::Command { word: slice, completer }
        },
        Some((head, partial)) => {
            let cmd = trim_text(&without_last(&head));
            proof {
                lemma_split_nonempty(cmd@, equals(' '));
            }
            let pieces = split_text(&cmd, ' ');
            let base_cmd = pieces[0].as_str();
            assert(base_cmd@ == texts(pieces@)[0]);
            let mut completer: Option<CompleterCall> = None;
            let mut word = String::new();
            if let Some(script) = table.lookup(base_cmd) {
                let parts = parse_command_with_quotes(&slice);
                if parts.len() == 0 {
                    return Plan::Idle;
                }
                let last = parts.len() - 1;
                word = parts[last].clone();
                completer = Some(completer_call(&script, &parts, last, line, pos));
            }
            let start = byte_len(&head);
            match cut_last(&partial, '/') {
                Some((dir, prefix)) => {
                    let base = dir.clone();
                    Plan::Argument { start, word, completer, dir, prefix, base }
                },
                None => {
                    proof {
                        lemma_no_last(partial@, '/');
                    }
                    Plan::Argument {
                        start,
                        word,
                        completer,
                        dir: ".".to_owned(),
                        prefix: partial,
                        base: String::new(),
                    }
                },
            }
        },
    }
}

proof fn lemma_cut(s: Seq<char>, c: char)
    ensures
        through_last(s, c) + after_last(s, c) == s,
    decreases s.len(),
{
    if s.len() == 0 {
        lemma_no_last(s, c);
        assert(Seq::<char>::empty() + s =~= s);
    } else if s.last() == c {
        assert(s =~= s.drop_last().push(c) + Seq::<char>::empty());
        lemma_last(s, c, s.drop_last(), Seq::empty());
    } else {
        lemma_cut(s.drop_last(), c);
        lemma_split_nonempty(s.drop_last(), equals(c));
        let tail = after_last(s.drop_last(), c);
        assert(after_last(s, c) == tail.push(s.last()));
        assert(s.take(s.len() - tail.len() - 1) =~= s.drop_last().take(
            s.drop_last().len() - tail.len(),
        ));
        assert(through_last(s, c) + tail.push(s.last()) =~= s.drop_last().push(s.last()));
    }
}

/// The argument being typed is what the line holds from `start` to the cursor, and as a
/// path it is `base` followed by `prefix`: a replacement put there replaces just this
/// argument.
pub proof fn law_argument_stands_before_the_cursor(
    line: Seq<char>,
    pos: nat,
    table: Map<Seq<char>, Seq<char>>,
)
    requires
        is_char_boundary(encode_utf8(line), pos as int),
        plan(line, pos, table) is Argument,
    ensures
        plan(line, pos, table)->start <= pos,
        encode_utf8(line).subrange(plan(line, pos, table)->start as int, pos as int)
            == encode_utf8(plan(line, pos, table)->base + plan(line, pos, table)->prefix),
        !plan(line, pos, table)->prefix.contains(' '),
        !plan(line, pos, table)->prefix.contains('/'),
{
    let bytes = encode_utf8(line);
    let slice = typed(line, pos);
    let head = through_last(slice, ' ');
    let partial = after_last(slice, ' ');
    encode_utf8_valid_utf8(line);
    valid_utf8_split(bytes, pos as int);
    decode_utf8_encode_utf8(bytes.subrange(0, pos as int));
    assert(encode_utf8(slice) == bytes.subrange(0, pos as int));
    lemma_cut(slice, ' ');
    lemma_cut(partial, '/');
    lemma_encoding_concat(head, partial);
    let start = encode_utf8(head).len() as int;
    assert(bytes.subrange(start, pos as int) =~= encode_utf8(slice).subrange(start, pos as int));
    assert(encode_utf8(slice).subrange(start, pos as int) =~= encode_utf8(partial));
    lemma_tail_lacks(slice, ' ');
    lemma_tail_lacks(partial, '/');
    let prefix = after_last(partial, '/');
    assert forall|i: int| 0 <= i < prefix.len() implies prefix[i] != ' ' by {
        let k = partial.len() - prefix.len() + i;
        assert(partial == through_last(partial, '/') + prefix);
        assert(partial[k] == prefix[i]);
        assert(partial.contains(partial[k]));
    }
}

proof fn lemma_tail_lacks(s: Seq<char>, c: char)
    ensures
        !after_last(s, c).contains(c),
{
    lemma_split_nonempty(s, equals(c));
    lemma_split_pieces(s, equals(c));
    let p = split(s, equals(c));
    assert forall|j: int| 0 <= j < p.last().len() implies p.last()[j] != c by {
        assert(!equals(c)(p[p.len() - 1][j]));
    }
}

/// A script is told the word that is being completed and the word before it: of words that end
/// with `previous` and `current` these two, be there words before them or not, so for the first
/// argument of a command the word before is the command. Only for the first word there is none
/// before it. It is also told the first word, the line, and the place of the cursor in decimal.
pub proof fn law_script_is_told_the_words(
    script: Seq<char>,
    before: Seq<Seq<char>>,
    previous: Seq<char>,
    current: Seq<char>,
    line: Seq<char>,
    point: nat,
)
    ensures
        ({
            let parts = before + seq![previous, current];
            let told = call(script, parts, parts.len() - 1, line, point);
            let alone = call(script, seq![current], 0, line, point);
            &&& told.script == script && alone.script == script
            &&& told.current_word == current && alone.current_word == current
            &&& told.previous_word == previous && alone.previous_word == Seq::<char>::empty()
            &&& told.command_name == if before.len() == 0 {
                previous
            } else {
                before[0]
            }
            &&& alone.command_name == current
            &&& told.comp_line == line && alone.comp_line == line
            &&& told.comp_point == decimal(point) && alone.comp_point == decimal(point)
        }),
{
}

/// A script offers something exactly if it succeeded and printed text with a line that is not
/// empty; its offers are those lines, each as often as it was printed, in order.
pub proof fn law_candidates(success: bool, stdout: Seq<u8>)
    ensures
        candidates(success, stdout) is Some <==> success && valid_utf8(stdout) && nonempty(
            lines(decode_utf8(stdout)),
        ).len() > 0,
        candidates(success, stdout) matches Some(list) ==> {
            &&& list.to_multiset() == nonempty(lines(decode_utf8(stdout))).to_multiset()
            &&& forall|i: int, j: int|
                0 <= i <= j < list.len() ==> le(#[trigger] list[i], #[trigger] list[j])
        },
{
    let printed = nonempty(lines(decode_utf8(stdout)));
    let key = key_of::<String>();
    law_sort_keeps_items(printed, key);
    law_sort_sorts(printed, key);
    assert forall|i: int, j: int| 0 <= i <= j < sort_names(printed).len() implies le(
        #[trigger] sort_names(printed)[i],
        #[trigger] sort_names(printed)[j],
    ) by {
        assert(le(key(sort(printed, key)[i]), key(sort(printed, key)[j])));
    }
}

/// What stands before the cursor is the text of the line's first bytes, as many as the place of
/// the cursor says: it does not depend on what follows.
pub proof fn law_typed_text(before: Seq<char>, after: Seq<char>)
    ensures
        typed(before + after, encode_utf8(before).len()) == before,
{
    lemma_encoding_concat(before, after);
    let bytes = encode_utf8(before + after);
    assert(bytes.subrange(0, encode_utf8(before).len() as int) =~= encode_utf8(before));
    encode_utf8_decode_utf8(before);
}

/// The word by which a script is found is the text up to the first space, white space at the
/// ends not counted.
pub proof fn law_base_command(text: Seq<char>, word: Seq<char>, rest: Seq<char>)
    requires
        !word.contains(' '),
        trim(text) == word || trim(text) == word.push(' ') + rest,
    ensures
        base_command(text) == word,
{
    law_pieces(word, ' ', rest);
}

/// Where nothing stands before the cursor there is nothing to complete. A text without a space
/// is the start of a command; a script registered for exactly this text is asked, told this one
/// word.
pub proof fn law_plan_for_a_command(
    before: Seq<char>,
    after: Seq<char>,
    table: Map<Seq<char>, Seq<char>>,
)
    requires
        !before.contains(' '),
    ensures
        ({
            let line = before + after;
            let pos = encode_utf8(before).len();
            &&& before.len() == 0 ==> plan(line, pos, table) is Nothing
            &&& before.len() > 0 ==> {
                &&& plan(line, pos, table) is Command
                &&& plan(line, pos, table)->Command_word == before
                &&& !table.contains_key(before) ==> plan(line, pos, table)->Command_completer
                    is None
                &&& table.contains_key(before) ==> plan(line, pos, table)->Command_completer
                    == Some(
                    CallView {
                        script: table[before],
                        command_name: before,
                        current_word: before,
                        previous_word: Seq::empty(),
                        comp_line: line,
                        comp_point: decimal(pos),
                    },
                )
            }
        }),
{
    law_typed_text(before, after);
}

/// Behind a space an argument is being typed: `dirs` up to its last slash, and `name` after it.
/// The replacement starts right behind the last space. The entries looked for are those of the
/// directory `dirs`, or of the current one if there is no slash, whose names start with `name`.
/// A script registered for the first word of what stands before that space is asked, told the
/// last of the words before the cursor and the word before that; with a script and no words
/// nothing happens.
pub proof fn law_plan_for_an_argument(
    head: Seq<char>,
    dirs: Seq<char>,
    name: Seq<char>,
    after: Seq<char>,
    table: Map<Seq<char>, Seq<char>>,
)
    requires
        !dirs.contains(' '),
        !name.contains(' '),
        !name.contains('/'),
        dirs.len() == 0 || dirs.last() == '/',
    ensures
        ({
            let before = head + seq![' '] + dirs + name;
            let line = before + after;
            let pos = encode_utf8(before).len();
            let parts = words(before);
            let n = parts.len() as int;
            let command = base_command(head);
            let scripted = table.contains_key(command);
            let p = plan(line, pos, table);
            &&& scripted && n == 0 ==> p is Idle
            &&& !scripted || n > 0 ==> {
                &&& p is Argument
                &&& p->start == encode_utf8(head + seq![' ']).len()
                &&& p->prefix == name
                &&& p->base == dirs
                &&& dirs.len() > 0 ==> p->dir == dirs
                &&& dirs.len() == 0 ==> p->dir == "."@
                &&& !scripted ==> p->Argument_completer is None
                &&& scripted ==> p->Argument_word == parts[n - 1] && p->Argument_completer == Some(
                    CallView {
                        script: table[command],
                        command_name: parts[0],
                        current_word: parts[n - 1],
                        previous_word: if n >= 2 {
                            parts[n - 2]
                        } else {
                            Seq::empty()
                        },
                        comp_line: line,
                        comp_point: decimal(pos),
                    },
                )
            }
        }),
{
    let before = head + seq![' '] + dirs + name;
    let partial = dirs + name;
    law_typed_text(before, after);
    assert(before =~= head.push(' ') + partial);
    assert(!partial.contains(' ')) by {
        if partial.contains(' ') {
            let k = choose|k: int| 0 <= k < partial.len() && partial[k] == ' ';
            if k < dirs.len() {
                assert(dirs[k] == ' ');
            } else {
                assert(name[k - dirs.len()] == ' ');
            }
        }
    }
    lemma_last(before, ' ', head, partial);
    assert(before[head.len() as int] == ' ');
    assert(head.push(' ').drop_last() =~= head);
    assert(head.push(' ') =~= head + seq![' ']);
    if dirs.len() > 0 {
        let up = dirs.drop_last();
        assert(up.push('/') =~= dirs);
        lemma_last(partial, '/', up, name);
        assert(partial[dirs.len() - 1] == '/');
    } else {
        assert(partial =~= name);
        lemma_no_last(partial, '/');
        assert(dirs =~= Seq::empty());
    }
}

} // verus!
