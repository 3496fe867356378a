//! From a line to what is to be done for it.
use vstd::prelude::*;
use vstd::slice::slice_subrange;
use vstd::string::*;

use crate::builtins::{builtin_names, law_builtin_names, lemma_command_names_differ, opt_text};
use crate::complete::CompletionTable;
use crate::format::{each_ended, join, join_texts};
use crate::history::{
    asks_history, is_one_line, law_written_history_reads_back, parse_history, HistoryRequest,
};
use crate::redirect::{
    parse_with_redirection, redirect, split_by_pipes, stage_texts, stages, Redirection,
    RedirectionView, Stream,
};
use crate::split::{
    drop_end, drop_start, is_white_space, lines, nonempty, trim, trim_text, white,
};
use crate::text::{clone_texts, contains_text, same, texts};
use crate::words::{command_line, law_escaped_words_come_back, words};

verus! {

/// A command as it was entered: its text, its words, where its output goes, and whether it
/// runs in the background.
pub struct Invocation {
    pub command: String,
    pub parts: Vec<String>,
    pub redirection: Redirection,
    pub background: bool,
}

/// What an `Invocation` stands for.
pub struct InvocationView {
    pub command: Seq<char>,
    pub parts: Seq<Seq<char>>,
    pub redirection: RedirectionView,
    pub background: bool,
}

impl View for Invocation {
    type V = InvocationView;

    open spec fn view(&self) -> InvocationView {
        InvocationView {
            command: self.command@,
            parts: texts(self.parts@),
            redirection: self.redirection@,
            background: self.background,
        }
    }
}

/// The command that a line holds, if any: white space at the ends does not count, an
/// ampersand as the last word sends the command to the background, and a line without
/// further words holds no command.
pub open spec fn invocation(line: Seq<char>) -> Option<InvocationView> {
    let command = trim(line);
    let (all, redirection) = redirect(words(command));
    let background = all.len() > 0 && all.last() == "&"@;
    let parts = if background {
        all.drop_last()
    } else {
        all
    };
    if parts.len() == 0 {
        None
    } else {
        Some(InvocationView { command, parts, redirection, background })
    }
}

/// The command that a line holds, if any.
pub fn interpret(line: &str) -> (r: Option<Invocation>)
    ensures
        r is Some <==> invocation(line@) is Some,
        r matches Some(i) ==> i@ == invocation(line@)->0 && i.parts@.len() > 0,
{
    let command = trim_text(line);
    let (mut parts, redirection) = parse_with_redirection(&command);
    let n = parts.len();
    let ghost all = texts(parts@);
    let background = n > 0 && same(&parts[n - 1], "&");
    if background {
        let _mark = parts.pop();
        assert(texts(parts@) =~= all.drop_last());
    }
    if parts.len() == 0 {
        return None;
    }
    Some(Invocation { command, parts, redirection, background })
}

/// A text for one of the shell's streams.
pub struct Report {
    pub stream: Stream,
    pub text: String,
}

/// What a `complete` command asks for.
pub enum CompleteRequest {
    Nothing,
    /// Let no script complete the arguments of a command.
    Remove(String),
    /// Let a script complete the arguments of a command.
    Register { script: String, command: String },
    /// Say which script completes the arguments of a command.
    Show(String),
    /// Say what is wrong with the command.
    Refused(String),
}

/// Whether `r` is what the words of a `complete` command ask for.
pub open spec fn asks_complete(parts: Seq<Seq<char>>, r: CompleteRequest) -> bool {
    if parts.len() < 2 {
        r is Nothing
    } else if parts[1] == "-r"@ {
        if parts.len() < 3 {
            r matches CompleteRequest::Refused(t) && t@
                == "complete: -r: option requires an argument"@
        } else {
            r matches CompleteRequest::Remove(command) && command@ == parts[2]
        }
    } else if parts[1] == "-C"@ {
        if parts.len() < 4 {
            r matches CompleteRequest::Refused(t) && t@
                == "complete: -C: option requires an argument"@
        } else {
            r matches CompleteRequest::Register { script, command } && script@ == parts[2]
                && command@ == parts[3]
        }
    } else if parts[1] == "-p"@ {
        if parts.len() < 3 {
            r matches CompleteRequest::Refused(t) && t@
                == "complete: -p: option requires an argument"@
        } else {
            r matches CompleteRequest::Show(command) && command@ == parts[2]
        }
    } else {
        r is Nothing
    }
}

/// What the words of a `complete` command ask for.
pub fn parse_complete(parts: &[String]) -> (r: CompleteRequest)
    ensures
        asks_complete(texts(parts@), r),
{
    if parts.len() < 2 {
        return CompleteRequest::Nothing;
    }
    let option = parts[1].as_str();
    if same(option, "-r") {
        if parts.len() < 3 {
            CompleteRequest::Refused("complete: -r: option requires an argument".to_owned())
        } else {
            CompleteRequest::Remove(parts[2].clone())
        }
    } else if same(option, "-C") {
        if parts.len() < 4 {
            CompleteRequest::Refused("complete: -C: option requires an argument".to_owned())
        } else {
            CompleteRequest::Register { script: parts[2].clone(), command: parts[3].clone() }
        }
    } else if same(option, "-p") {
        if parts.len() < 3 {
            CompleteRequest::Refused("complete: -p: option requires an argument".to_owned())
        } else {
            CompleteRequest::Show(parts[2].clone())
        }
    } else {
        CompleteRequest::Nothing
    }
}

/// The table of scripts after a `complete` command.
pub open spec fn table_after(
    table: Map<Seq<char>, Seq<char>>,
    request: CompleteRequest,
) -> Map<Seq<char>, Seq<char>> {
    match request {
        CompleteRequest::Remove(command) => table.remove(command@),
        CompleteRequest::Register { script, command } => table.insert(command@, script@),
        _ => table,
    }
}

/// What a `complete` command says, and on which stream.
pub open spec fn complete_report(
    table: Map<Seq<char>, Seq<char>>,
    request: CompleteRequest,
) -> Option<(Stream, Seq<char>)> {
    match request {
        CompleteRequest::Show(command) => if table.contains_key(command@) {
            Some((Stream::Stdout, "complete -C '"@ + table[command@] + "' "@ + command@))
        } else {
            Some(
                (Stream::Stderr, "complete: "@ + command@ + ": no completion specification"@),
            )
        },
        CompleteRequest::Refused(message) => Some((Stream::Stderr, message@)),
        _ => None,
    }
}

/// A report by its stream and its characters.
pub open spec fn report_text(r: Option<Report>) -> Option<(Stream, Seq<char>)> {
    match r {
        Some(r) => Some((r.stream, r.text@)),
        None => None,
    }
}

/// Carries out a `complete` command.
pub fn run_complete(table: &mut CompletionTable, request: &CompleteRequest) -> (r: Option<Report>)
    ensures
        final(table)@ == table_after(old(table)@, *request),
        report_text(r) == complete_report(old(table)@, *request),
{
    match request {
        CompleteRequest::Nothing => None,
        CompleteRequest::Remove(command) => {
            table.unregister(command);
            None
        },
        CompleteRequest::Register { script, command } => {
            table.register(command, script);
            None
        },
        CompleteRequest::Show(command) => match table.lookup(command) {
            Some(script) => {
                let mut out = "complete -C '".to_owned();
                out.append(&script);
                out.append("' ");
                out.append(command);
                Some(Report { stream: Stream::Stdout, text: out })
            },
            None => {
                let mut out = "complete: ".to_owned();
                out.append(command);
                out.append(": no completion specification");
                Some(Report { stream: Stream::Stderr, text: out })
            },
        },
        CompleteRequest::Refused(message) => Some(
            Report { stream: Stream::Stderr, text: message.clone() },
        ),
    }
}

/// What `declare` says. There are no variables, so none is ever found.
pub open spec fn declare_message(parts: Seq<Seq<char>>) -> Seq<char> {
    if parts.len() < 2 {
        "declare: missing arguments"@
    } else if parts[1] == "-p"@ {
        if parts.len() < 3 {
            "declare: -p: option requires an argument"@
        } else {
            "declare: "@ + parts[2] + ": not found"@
        }
    } else {
        "declare: unknown option or missing flag"@
    }
}

/// What `declare` says.
pub fn declare_text(parts: &[String]) -> (r: String)
    ensures
        r@ == declare_message(texts(parts@)),
{
    if parts.len() < 2 {
        return "declare: missing arguments".to_owned();
    }
    if same(&parts[1], "-p") {
        if parts.len() < 3 {
            return "declare: -p: option requires an argument".to_owned();
        }
        let mut out = "declare: ".to_owned();
        out.append(&parts[2]);
        out.append(": not found");
        out
    } else {
        "declare: unknown option or missing flag".to_owned()
    }
}

/// A complaint about a file: the command, the file's name, and what is wrong.
pub fn file_complaint(command: &str, name: &str, error: &str) -> (r: String)
    ensures
        r@ == command@ + ": "@ + name@ + ": "@ + error@,
{
    let mut out = command.to_owned();
    out.append(": ");
    out.append(name);
    out.append(": ");
    out.append(error);
    out
}

/// What `cd` complains about, if anything: that there is no directory, or else the error that
/// going there gave.
pub open spec fn cd_message(
    path: Seq<char>,
    is_directory: bool,
    error: Option<Seq<char>>,
) -> Option<Seq<char>> {
    if !is_directory {
        Some("cd: "@ + path + ": "@ + "No such file or directory"@)
    } else {
        match error {
            Some(e) => Some("cd: "@ + path + ": "@ + e),
            None => None,
        }
    }
}

/// What `cd` complains about, if anything, for the path as it was written.
pub fn cd_complaint(path: &str, is_directory: bool, error: &Option<String>) -> (r: Option<String>)
    ensures
        opt_text(r) == cd_message(path@, is_directory, opt_text(*error)),
{
    let mut out = "cd: ".to_owned();
    out.append(path);
    out.append(": ");
    if !is_directory {
        out.append("No such file or directory");
        return Some(out);
    }
    match error {
        Some(e) => {
            out.append(e);
            Some(out)
        },
        None => None,
    }
}

/// What is to be done for a command.
pub enum Action {
    /// Run the commands of a pipeline.
    Pipeline(Vec<Vec<String>>),
    Exit,
    /// Print the text, or write it to where the output goes.
    Echo(String),
    /// Say what a command is.
    Type(String),
    /// Print the current directory, or write it to where the output goes.
    Pwd,
    /// Go to a directory.
    Cd(String),
    /// Report the jobs.
    Jobs,
    History(HistoryRequest),
    Complete(CompleteRequest),
    /// Say something.
    Say(Report),
    /// Run a program.
    Run { program: String, args: Vec<String> },
}

/// Whether `a` is to say `text` on a stream.
pub open spec fn says(a: Action, stream: Stream, text: Seq<char>) -> bool {
    a matches Action::Say(r) && r.stream == stream && r.text@ == text
}

/// Whether `a` is what is to be done for a command of the given words.
pub open spec fn does(parts: Seq<Seq<char>>, a: Action) -> bool {
    let cmd = parts[0];
    if parts.contains("|"@) {
        a matches Action::Pipeline(p) && stage_texts(p@) == stages(parts)
    } else if cmd == "exit"@ {
        a is Exit
    } else if cmd == "echo"@ {
        a matches Action::Echo(t) && t@ == join(parts.skip(1), " "@)
    } else if cmd == "type"@ {
        if parts.len() < 2 {
            says(a, Stream::Stdout, "type: missing argument"@)
        } else {
            a matches Action::Type(t) && t@ == parts[1]
        }
    } else if cmd == "pwd"@ {
        a is Pwd
    } else if cmd == "cd"@ {
        if parts.len() < 2 {
            says(a, Stream::Stderr, "cd: missing argument"@)
        } else {
            a matches Action::Cd(t) && t@ == parts[1]
        }
    } else if cmd == "jobs"@ {
        a is Jobs
    } else if cmd == "history"@ {
        a matches Action::History(r) && asks_history(parts, r)
    } else if cmd == "declare"@ {
        says(a, Stream::Stderr, declare_message(parts))
    } else if cmd == "complete"@ {
        a matches Action::Complete(r) && asks_complete(parts, r)
    } else {
        a matches Action::Run { program, args } && program@ == cmd && texts(args@) == parts.skip(1)
    }
}

/// What is to be done for a command of the given words.
pub fn dispatch(parts: &[String]) -> (a: Action)
    requires
        parts@.len() > 0,
    ensures
        does(texts(parts@), a),
{
    let cmd = parts[0].as_str();
    assert(texts(parts@)[0] == cmd@);
    if contains_text(parts, "|") {
        Action::Pipeline(split_by_pipes(parts))
    } else if same(cmd, "exit") {
        Action::Exit
    } else if same(cmd, "echo") {
        let args = slice_subrange(parts, 1, parts.len());
        assert(texts(args@) =~= texts(parts@).skip(1));
        Action::Echo(join_texts(args, " "))
    } else if same(cmd, "type") {
        if parts.len() < 2 {
            Action::Say(
                Report { stream: Stream::Stdout, text: "type: missing argument".to_owned() },
            )
        } else {
            Action::Type(parts[1].clone())
        }
    } else if same(cmd, "pwd") {
        Action::Pwd
    } else if same(cmd, "cd") {
        if parts.len() < 2 {
            Action::Say(
                Report { stream: Stream::Stderr, text: "cd: missing argument".to_owned() },
            )
        } else {
            Action::Cd(parts[1].clone())
        }
    } else if same(cmd, "jobs") {
        Action::Jobs
    } else if same(cmd, "history") {
        Action::History(parse_history(parts))
    } else if same(cmd, "declare") {
        Action::Say(Report { stream: Stream::Stderr, text: declare_text(parts) })
    } else if same(cmd, "complete") {
        Action::Complete(parse_complete(parts))
    } else {
        let args = slice_subrange(parts, 1, parts.len());
        assert(texts(args@) =~= texts(parts@).skip(1));
        Action::Run { program: cmd.to_owned(), args: clone_texts(args) }
    }
}

/// A command in the background has the words that the line has before the ampersand.
pub proof fn law_background_command_lacks_the_ampersand(line: Seq<char>)
    requires
        invocation(line) is Some,
    ensures
        (invocation(line)->0).parts.len() > 0,
        (invocation(line)->0).background ==> (invocation(line)->0).parts.push("&"@) == redirect(
            words(trim(line)),
        ).0,
        !(invocation(line)->0).background ==> (invocation(line)->0).parts == redirect(
            words(trim(line)),
        ).0,
{
    let all = redirect(words(trim(line))).0;
    if (invocation(line)->0).background {
        assert(all.drop_last().push(all.last()) =~= all);
    }
}

proof fn lemma_drop_start(s: Seq<char>)
    ensures
        forall|c: char| drop_start(s, white()).contains(c) ==> s.contains(c),
    decreases s.len(),
{
    if s.len() > 0 && white()(s.first()) {
        lemma_drop_start(s.drop_first());
        assert forall|c: char| s.drop_first().contains(c) implies s.contains(c) by {
            let k = choose|k: int| 0 <= k < s.drop_first().len() && s.drop_first()[k] == c;
            assert(s[k + 1] == c);
        }
    }
}

proof fn lemma_drop_end(s: Seq<char>)
    ensures
        forall|c: char| drop_end(s, white()).contains(c) ==> s.contains(c),
        drop_end(s, white()).len() > 0 ==> !is_white_space(drop_end(s, white()).last()),
    decreases s.len(),
{
    if s.len() > 0 && white()(s.last()) {
        lemma_drop_end(s.drop_last());
        assert forall|c: char| s.drop_last().contains(c) implies s.contains(c) by {
            let k = choose|k: int| 0 <= k < s.drop_last().len() && s.drop_last()[k] == c;
            assert(s[k] == c);
        }
    }
}

/// A command entered on one line is remembered as one line: its text is not empty, holds no
/// line feed, and does not end with a carriage return.
pub proof fn law_entered_command_is_one_line(line: Seq<char>)
    requires
        invocation(line) is Some,
        !line.contains('\n'),
    ensures
        is_one_line((invocation(line)->0).command),
{
    let command = trim(line);
    lemma_drop_start(line);
    lemma_drop_end(drop_start(line, white()));
    if command.len() == 0 {
        law_escaped_words_come_back(Seq::empty());
        assert(command =~= command_line(Seq::empty()));
    }
    reveal(is_white_space);
}

/// What was entered comes back: the commands of lines, written to a file and read from it,
/// are the same commands.
pub proof fn law_entered_commands_read_back(entered: Seq<Seq<char>>)
    requires
        forall|i: int|
            0 <= i < entered.len() ==> invocation(#[trigger] entered[i]) is Some
                && !entered[i].contains('\n'),
    ensures
        ({
            let commands = entered.map_values(|line: Seq<char>| (invocation(line)->0).command);
            nonempty(lines(each_ended(commands, '\n'))) == commands
        }),
{
    let commands = entered.map_values(|line: Seq<char>| (invocation(line)->0).command);
    assert forall|i: int| 0 <= i < commands.len() implies is_one_line(#[trigger] commands[i]) by {
        law_entered_command_is_one_line(entered[i]);
    }
    law_written_history_reads_back(commands);
}

/// A script that has been registered for a command is the one reported, and registering it
/// changes nothing for other commands; once removed, none is reported.
pub proof fn law_registered_script_is_reported(
    table: Map<Seq<char>, Seq<char>>,
    script: String,
    command: String,
    other: String,
)
    ensures
        ({
            let registered = table_after(table, CompleteRequest::Register { script, command });
            let removed = table_after(table, CompleteRequest::Remove(command));
            &&& complete_report(registered, CompleteRequest::Show(command)) == Some(
                (Stream::Stdout, "complete -C '"@ + script@ + "' "@ + command@),
            )
            &&& complete_report(removed, CompleteRequest::Show(command)) == Some(
                (Stream::Stderr, "complete: "@ + command@ + ": no completion specification"@),
            )
            &&& other@ != command@ ==> {
                &&& complete_report(registered, CompleteRequest::Show(other)) == complete_report(
                    table,
                    CompleteRequest::Show(other),
                )
                &&& complete_report(removed, CompleteRequest::Show(other)) == complete_report(
                    table,
                    CompleteRequest::Show(other),
                )
            }
        }),
{
}

/// A line with at least one word besides its redirections holds a command, unless an ampersand
/// is the only one. The command runs in the background if and only if the last word is an
/// ampersand, whatever the other words are; its words are then those before the last. So the
/// words of a command end with an ampersand only where those of the line end with two. Its text
/// is the whole line without white space at the ends.
pub proof fn law_ampersand_means_background(line: Seq<char>)
    ensures
        ({
            let all = redirect(words(trim(line))).0;
            &&& invocation(line) is None <==> all.len() == 0 || all.len() == 1 && all[0] == "&"@
            &&& invocation(line) matches Some(i) ==> {
                &&& i.background <==> all[all.len() - 1] == "&"@
                &&& i.background ==> i.parts + seq!["&"@] == all
                &&& !i.background ==> i.parts == all
                &&& i.parts[i.parts.len() - 1] == "&"@ ==> all.len() >= 2 && all[all.len() - 1]
                    == "&"@ && all[all.len() - 2] == "&"@
                &&& i.command == trim(line)
                &&& i.redirection == redirect(words(trim(line))).1
            }
        }),
{
    let all = redirect(words(trim(line))).0;
    if all.len() > 0 {
        assert(all.drop_last() + seq![all.last()] =~= all);
    }
}

/// Words with a bar among them are a pipeline, whatever the first word is; without a bar the
/// first word decides. The shell's own commands are carried out with their further words, and
/// any other word is run as a program with them.
pub proof fn law_first_word_decides(cmd: Seq<char>, args: Seq<Seq<char>>, a: Action)
    requires
        does(seq![cmd] + args, a),
    ensures
        ({
            let parts = seq![cmd] + args;
            let bar = parts.contains("|"@);
            &&& bar ==> (a matches Action::Pipeline(p) && stage_texts(p@) == stages(parts))
            &&& !bar && cmd == "exit"@ ==> a is Exit
            &&& !bar && cmd == "echo"@ ==> (a matches Action::Echo(t) && t@ == join(args, " "@))
            &&& !bar && cmd == "type"@ && args.len() > 0 ==> (a matches Action::Type(t) && t@
                == args[0])
            &&& !bar && cmd == "type"@ && args.len() == 0 ==> (a matches Action::Say(r) && r.stream
                == Stream::Stdout && r.text@ == "type: missing argument"@)
            &&& !bar && cmd == "pwd"@ ==> a is Pwd
            &&& !bar && cmd == "cd"@ && args.len() > 0 ==> (a matches Action::Cd(t) && t@
                == args[0])
            &&& !bar && cmd == "cd"@ && args.len() == 0 ==> (a matches Action::Say(r) && r.stream
                == Stream::Stderr && r.text@ == "cd: missing argument"@)
            &&& !bar && cmd == "jobs"@ ==> a is Jobs
            &&& !bar && cmd == "history"@ ==> (a matches Action::History(r) && asks_history(
                parts,
                r,
            ))
            &&& !bar && cmd == "declare"@ ==> (a matches Action::Say(r) && r.stream
                == Stream::Stderr && r.text@ == declare_message(parts))
            &&& !bar && cmd == "complete"@ ==> (a matches Action::Complete(r) && asks_complete(
                parts,
                r,
            ))
            &&& !bar && !builtin_names().contains(cmd) ==> (a matches Action::Run {
                program,
                args: given,
            } && program@ == cmd && texts(given@) == args)
        }),
{
    lemma_command_names_differ();
    law_builtin_names(cmd);
    assert((seq![cmd] + args).skip(1) =~= args);
    if args.len() > 0 {
        assert((seq![cmd] + args)[1] == args[0]);
    }
}

/// What a `complete` command asks for, by its second word: `-C` registers the script named by
/// the third word for the command named by the fourth, `-r` removes the script of the command
/// named by the third, and `-p` shows it; where such a word lacks there is a complaint, and any
/// other command asks for nothing.
pub proof fn law_complete_requests(parts: Seq<Seq<char>>, r: CompleteRequest)
    requires
        asks_complete(parts, r),
    ensures
        parts.len() > 3 && parts[1] == "-C"@ ==> (r matches CompleteRequest::Register {
            script,
            command,
        } && script@ == parts[2] && command@ == parts[3]),
        2 <= parts.len() <= 3 && parts[1] == "-C"@ ==> (r matches CompleteRequest::Refused(t) && t@
            == "complete: -C: option requires an argument"@),
        parts.len() > 2 && parts[1] == "-r"@ ==> (r matches CompleteRequest::Remove(c) && c@
            == parts[2]),
        parts.len() == 2 && parts[1] == "-r"@ ==> (r matches CompleteRequest::Refused(t) && t@
            == "complete: -r: option requires an argument"@),
        parts.len() > 2 && parts[1] == "-p"@ ==> (r matches CompleteRequest::Show(c) && c@
            == parts[2]),
        parts.len() == 2 && parts[1] == "-p"@ ==> (r matches CompleteRequest::Refused(t) && t@
            == "complete: -p: option requires an argument"@),
        parts.len() < 2 || parts[1] != "-C"@ && parts[1] != "-r"@ && parts[1] != "-p"@
            ==> r is Nothing,
{
    reveal_strlit("-C");
    reveal_strlit("-r");
    reveal_strlit("-p");
    assert("-C"@[1] == 'C' && "-r"@[1] == 'r' && "-p"@[1] == 'p');
}

/// Only registering and removing change the table, and only for the command that is named; they
/// say nothing. A complaint is said on the error stream.
pub proof fn law_requests_change_one_command(
    table: Map<Seq<char>, Seq<char>>,
    script: String,
    command: String,
    message: String,
)
    ensures
        table_after(table, CompleteRequest::Register { script, command }) == table.insert(
            command@,
            script@,
        ),
        table_after(table, CompleteRequest::Remove(command)) == table.remove(command@),
        table_after(table, CompleteRequest::Show(command)) == table,
        table_after(table, CompleteRequest::Refused(message)) == table,
        table_after(table, CompleteRequest::Nothing) == table,
        complete_report(table, CompleteRequest::Register { script, command }) is None,
        complete_report(table, CompleteRequest::Remove(command)) is None,
        complete_report(table, CompleteRequest::Nothing) is None,
        complete_report(table, CompleteRequest::Refused(message)) == Some(
            (Stream::Stderr, message@),
        ),
{
}

/// What `declare` says, by its words.
pub proof fn law_declare(first: Seq<char>, option: Seq<char>, rest: Seq<Seq<char>>)
    ensures
        declare_message(seq![first]) == "declare: missing arguments"@,
        option != "-p"@ ==> declare_message(seq![first, option] + rest)
            == "declare: unknown option or missing flag"@,
        declare_message(seq![first, "-p"@]) == "declare: -p: option requires an argument"@,
        rest.len() > 0 ==> declare_message(seq![first, "-p"@] + rest) == "declare: "@ + rest[0]
            + ": not found"@,
{
    if rest.len() > 0 {
        assert((seq![first, "-p"@] + rest)[2] == rest[0]);
    }
}

/// `cd` complains exactly where there is no directory or going there failed, and a missing
/// directory is what it complains about first.
pub proof fn law_cd_complaints(path: Seq<char>, error: Seq<char>)
    ensures
        cd_message(path, true, None) is None,
        cd_message(path, true, Some(error)) == Some("cd: "@ + path + ": "@ + error),
        cd_message(path, false, None) == Some(
            "cd: "@ + path + ": "@ + "No such file or directory"@,
        ),
        cd_message(path, false, Some(error)) == cd_message(path, false, None),
{
}

} // verus!
