//! Running commands: what is started for the commands of a pipeline, and how they are
//! connected.
use vstd::prelude::*;
use vstd::slice::slice_subrange;
use vstd::string::*;

use crate::builtins::{
    builtin_names, describe_command, description, is_builtin, lemma_command_names_differ, opt_text,
};
use crate::format::{join, join_texts};
use crate::redirect::{stage_texts, target, Redirection, RedirectionView};
use crate::text::{clone_texts, same, texts};

verus! {

/// Where a program reads from: where the shell does, a text, or the program started before
/// it.
pub enum Input {
    Inherit,
    Text(String),
    Previous,
}

/// Where a program writes to: where the shell does, the next program, or a file (its name
/// and whether the output is appended).
pub enum Output {
    Inherit,
    Pipe,
    File(String, bool),
}

/// What is to be done for a command, in a pipeline or alone.
pub enum Stage {
    /// Nothing: the command is empty.
    Skip,
    /// Give up, with a message.
    Fail(String),
    /// Print a line.
    Print(String),
    /// Write a line to a file: the text, the file's name and whether it is appended.
    Save(String, String, bool),
    /// Nothing now: the text is kept for the next program.
    Hold,
    /// Start a program.
    Spawn { program: String, args: Vec<String>, stdin: Input, stdout: Output, stderr: Output },
}

/// What an `Input` stands for.
pub enum InputView {
    Inherit,
    Text(Seq<char>),
    Previous,
}

/// What an `Output` stands for.
pub enum OutputView {
    Inherit,
    Pipe,
    File(Seq<char>, bool),
}

/// What a `Stage` stands for.
pub enum StageView {
    Skip,
    Fail(Seq<char>),
    Print(Seq<char>),
    Save(Seq<char>, Seq<char>, bool),
    Hold,
    Spawn {
        program: Seq<char>,
        args: Seq<Seq<char>>,
        stdin: InputView,
        stdout: OutputView,
        stderr: OutputView,
    },
}

impl View for Input {
    type V = InputView;

    open spec fn view(&self) -> InputView {
        match *self {
            Input::Inherit => InputView::Inherit,
            Input::Text(t) => InputView::Text(t@),
            Input::Previous => InputView::Previous,
        }
    }
}

impl View for Output {
    type V = OutputView;

    open spec fn view(&self) -> OutputView {
        match *self {
            Output::Inherit => OutputView::Inherit,
            Output::Pipe => OutputView::Pipe,
            Output::File(name, append) => OutputView::File(name@, append),
        }
    }
}

impl View for Stage {
    type V = StageView;

    open spec fn view(&self) -> StageView {
        match *self {
            Stage::Skip => StageView::Skip,
            Stage::Fail(t) => StageView::Fail(t@),
            Stage::Print(t) => StageView::Print(t@),
            Stage::Save(t, name, append) => StageView::Save(t@, name@, append),
            Stage::Hold => StageView::Hold,
            Stage::Spawn { program, args, stdin, stdout, stderr } => StageView::Spawn {
                program: program@,
                args: texts(args@),
                stdin: stdin@,
                stdout: stdout@,
                stderr: stderr@,
            },
        }
    }
}

/// What has to be found out before a command of a pipeline can be planned.
pub enum Query {
    Nothing,
    /// Where the program of this name is.
    FindProgram(String),
    CurrentDir,
}

/// Whether `q` is what has to be found out for the words of a command.
pub open spec fn asks(parts: Seq<Seq<char>>, q: Query) -> bool {
    if parts.len() > 1 && parts[0] == "type"@ && !builtin_names().contains(parts[1]) {
        q matches Query::FindProgram(name) && name@ == parts[1]
    } else if parts.len() > 0 && parts[0] == "pwd"@ {
        q is CurrentDir
    } else {
        q is Nothing
    }
}

/// What has to be found out for the words of a command.
pub fn stage_query(parts: &[String]) -> (q: Query)
    ensures
        asks(texts(parts@), q),
{
    if parts.len() > 1 && same(&parts[0], "type") && !is_builtin(&parts[1]) {
        proof {
            reveal_strlit("type");
            reveal_strlit("pwd");
        }
        Query::FindProgram(parts[1].clone())
    } else if parts.len() > 0 && same(&parts[0], "pwd") {
        Query::CurrentDir
    } else {
        Query::Nothing
    }
}

/// What has been found out: where a program is, and the current directory or why it is not
/// known.
pub struct Facts {
    pub found: Option<String>,
    pub cwd: Result<String, String>,
}

/// What `Facts` stand for.
pub struct FactsView {
    pub found: Option<Seq<char>>,
    pub cwd: Result<Seq<char>, Seq<char>>,
}

impl View for Facts {
    type V = FactsView;

    open spec fn view(&self) -> FactsView {
        FactsView {
            found: opt_text(self.found),
            cwd: match self.cwd {
                Ok(p) => Ok(p@),
                Err(e) => Err(e@),
            },
        }
    }
}

/// What one of the shell's own commands prints in a pipeline, or why it cannot be part of
/// one.
pub open spec fn own_output(
    parts: Seq<Seq<char>>,
    facts: FactsView,
) -> Result<Seq<char>, Seq<char>> {
    if parts[0] == "echo"@ {
        Ok(join(parts.skip(1), " "@))
    } else if parts[0] == "type"@ {
        if parts.len() < 2 {
            Err("type: missing argument"@)
        } else {
            Ok(description(parts[1], facts.found))
        }
    } else if parts[0] == "pwd"@ {
        match facts.cwd {
            Ok(path) => Ok(path),
            Err(e) => Err("pwd: "@ + e),
        }
    } else {
        Err(parts[0] + ": not supported in pipeline"@)
    }
}

/// A text or a message by their characters.
pub open spec fn result_texts(r: Result<String, String>) -> Result<Seq<char>, Seq<char>> {
    match r {
        Ok(t) => Ok(t@),
        Err(e) => Err(e@),
    }
}

/// What one of the shell's own commands prints in a pipeline.
pub fn builtin_output(parts: &[String], facts: &Facts) -> (r: Result<String, String>)
    requires
        parts@.len() > 0,
    ensures
        result_texts(r) == own_output(texts(parts@), facts@),
{
    let cmd = parts[0].as_str();
    if same(cmd, "echo") {
        let args = slice_subrange(parts, 1, parts.len());
        assert(texts(args@) =~= texts(parts@).skip(1));
        Ok(join_texts(args, " "))
    } else if same(cmd, "type") {
        if parts.len() < 2 {
            Err("type: missing argument".to_owned())
        } else {
            Ok(describe_command(&parts[1], &facts.found))
        }
    } else if same(cmd, "pwd") {
        match &facts.cwd {
            Ok(path) => Ok(path.clone()),
            Err(e) => {
                let mut out = "pwd: ".to_owned();
                out.append(e);
                Err(out)
            },
        }
    } else {
        let mut out = cmd.to_owned();
        out.append(": not supported in pipeline");
        Err(out)
    }
}

/// A pipeline part of which has been planned: the text kept for the next program, and how
/// many programs are waiting, the most recent one for a reader of its output.
pub struct PipelineRun {
    pending: Option<String>,
    children: usize,
}

/// What a `PipelineRun` stands for.
pub struct RunView {
    pub pending: Option<Seq<char>>,
    pub children: nat,
}

impl View for PipelineRun {
    type V = RunView;

    closed spec fn view(&self) -> RunView {
        RunView { pending: opt_text(self.pending), children: self.children as nat }
    }
}

/// Where output goes that may be redirected.
pub open spec fn to_target(t: Option<(Seq<char>, bool)>) -> OutputView {
    match t {
        Some((name, append)) => OutputView::File(name, append),
        None => OutputView::Inherit,
    }
}

/// Where the program at place `i` of a pipeline reads from: the text kept for it, else the
/// program before it, else where the shell reads from.
pub open spec fn input_at(i: int, run: RunView) -> InputView {
    if i > 0 && run.pending is Some {
        InputView::Text(run.pending->0)
    } else if i > 0 && run.children > 0 {
        InputView::Previous
    } else {
        InputView::Inherit
    }
}

/// What is done with the output of one of the shell's own commands: it is written to a file if
/// it is redirected, and printed else.
pub open spec fn put_out(text: Seq<char>, t: Option<(Seq<char>, bool)>) -> StageView {
    match t {
        Some((name, append)) => StageView::Save(text, name, append),
        None => StageView::Print(text),
    }
}

/// What is done for the command at place `i` of a pipeline, and the pipeline after it. One of
/// the shell's own commands prints where it is the last, and else hands its line on. A
/// program writes to the next one; the redirections are for the last command.
pub open spec fn stage_at(
    pipelines: Seq<Seq<Seq<char>>>,
    i: int,
    r: RedirectionView,
    facts: FactsView,
    run: RunView,
) -> (StageView, RunView) {
    let parts = pipelines[i];
    let last = i == pipelines.len() - 1;
    if parts.len() == 0 {
        (StageView::Skip, run)
    } else if builtin_names().contains(parts[0]) {
        match own_output(parts, facts) {
            Err(message) => (StageView::Fail(message), run),
            Ok(text) => if last {
                (put_out(text, r.stdout_target), run)
            } else {
                (StageView::Hold, RunView { pending: Some(text.push('\n')), ..run })
            },
        }
    } else {
        let stdin = input_at(i, run);
        (
            StageView::Spawn {
                program: parts[0],
                args: parts.skip(1),
                stdin,
                stdout: if last {
                    to_target(r.stdout_target)
                } else {
                    OutputView::Pipe
                },
                stderr: if last {
                    to_target(r.stderr_target)
                } else {
                    OutputView::Inherit
                },
            },
            RunView {
                pending: None,
                children: if stdin is Previous {
                    run.children
                } else {
                    run.children + 1
                },
            },
        )
    }
}

fn target_output(t: &Option<(String, bool)>) -> (r: Output)
    ensures
        r@ == to_target(target(*t)),
{
    match t {
        Some((name, append)) => Output::File(name.clone(), *append),
        None => Output::Inherit,
    }
}

/// What is done with the output of one of the shell's own commands.
pub fn own_command_output(text: String, redirection: &Redirection) -> (r: Stage)
    ensures
        r@ == put_out(text@, redirection@.stdout_target),
{
    match &redirection.stdout_target {
        Some((name, append)) => Stage::Save(text, name.clone(), *append),
        None => Stage::Print(text),
    }
}

/// The file, and whether it is appended to, that one of the shell's own commands opens for its
/// error stream, although it writes nothing to it.
pub fn own_command_opens(redirection: &Redirection) -> (r: Option<(String, bool)>)
    ensures
        target(r) == redirection@.stderr_target,
{
    match &redirection.stderr_target {
        Some((name, append)) => Some((name.clone(), *append)),
        None => None,
    }
}

impl PipelineRun {
    /// A pipeline of which nothing has been planned.
    pub fn new() -> (r: Self)
        ensures
            r@.pending is None,
            r@.children == 0,
    {
        PipelineRun { pending: None, children: 0 }
    }

    /// What is to be done for the command at place `index`.
    pub fn stage(
        &mut self,
        pipelines: &[Vec<String>],
        index: usize,
        redirection: &Redirection,
        facts: &Facts,
    ) -> (r: Stage)
        requires
            index < pipelines@.len(),
            old(self)@.children <= index,
        ensures
            final(self)@.children <= index + 1,
            (r@, final(self)@) == stage_at(
                stage_texts(pipelines@),
                index as int,
                redirection@,
                facts@,
                old(self)@,
            ),
    {
        let parts = &pipelines[index];
        assert(stage_texts(pipelines@)[index as int] == texts(parts@));
        let last = index == pipelines.len() - 1;
        if parts.len() == 0 {
            return Stage::Skip;
        }
        assert(texts(parts@)[0] == parts@[0]@);
        if is_builtin(&parts[0]) {
            match builtin_output(parts, facts) {
                Err(message) => Stage::Fail(message),
                Ok(text) => if last {
                    own_command_output(text, redirection)
                } else {
                    let mut line = text;
                    line.push('\n');
                    self.pending = Some(line);
                    Stage::Hold
                },
            }
        } else {
            let kept = self.pending.take();
            let stdin = match kept {
                Some(text) if index > 0 => Input::Text(text),
                _ => if index > 0 && self.children > 0 {
                    Input::Previous
                } else {
                    Input::Inherit
                },
            };
            let mut previous = false;
            if let Input::Previous = stdin {
                previous = true;
            }
            if !previous {
                self.children = self.children + 1;
            }
            let args = slice_subrange(parts.as_slice(), 1, parts.len());
            assert(texts(args@) =~= texts(parts@).skip(1));
            Stage::Spawn {
                program: parts[0].clone(),
                args: clone_texts(args),
                stdin,
                stdout: if last {
                    target_output(&redirection.stdout_target)
                } else {
                    Output::Pipe
                },
                stderr: if last {
                    target_output(&redirection.stderr_target)
                } else {
                    Output::Inherit
                },
            }
        }
    }

    /// What is left to do once all commands have been started.
    pub fn finish(&self, run_background: bool) -> (r: Ending)
        ensures
            r == ending(self@, run_background),
    {
        if !run_background {
            Ending::Wait
        } else if self.children > 0 {
            Ending::Register
        } else {
            Ending::Nothing
        }
    }
}

/// What is left to do once all commands of a pipeline have been started.
#[derive(Clone, Copy, PartialEq, Eq, Structural)]
pub enum Ending {
    /// Wait for every program.
    Wait,
    /// Take in the most recent program as a job.
    Register,
    Nothing,
}

/// What is left to do: in the foreground the programs are waited for; in the background the
/// most recent one, if there is one, becomes a job.
pub open spec fn ending(run: RunView, run_background: bool) -> Ending {
    if !run_background {
        Ending::Wait
    } else if run.children > 0 {
        Ending::Register
    } else {
        Ending::Nothing
    }
}

/// A program to start outside a pipeline: the file, the name under which it is started, its
/// arguments, and where it writes to.
pub struct Program {
    pub path: String,
    pub arg0: String,
    pub args: Vec<String>,
    pub stdout: Output,
    pub stderr: Output,
}

/// Starts a program outside a pipeline, if it was found.
pub fn plan_program(
    cmd: &str,
    args: &[String],
    redirection: &Redirection,
    found: &Option<String>,
) -> (r: Result<Program, String>)
    ensures
        r is Ok <==> found is Some,
        r matches Ok(p) ==> {
            &&& p.path@ == (found->0)@
            &&& p.arg0@ == cmd@
            &&& texts(p.args@) == texts(args@)
            &&& p.stdout@ == to_target(redirection@.stdout_target)
            &&& p.stderr@ == to_target(redirection@.stderr_target)
        },
        r matches Err(message) ==> message@ == cmd@ + ": command not found"@,
{
    match found {
        Some(path) => Ok(
            Program {
                path: path.clone(),
                arg0: cmd.to_owned(),
                args: clone_texts(args),
                stdout: target_output(&redirection.stdout_target),
                stderr: target_output(&redirection.stderr_target),
            },
        ),
        None => {
            let mut out = cmd.to_owned();
            out.append(": command not found");
            Err(out)
        },
    }
}

/// Whether the command at place `i` is a program to be started.
pub open spec fn is_program_at(pipelines: Seq<Seq<Seq<char>>>, i: int) -> bool {
    0 <= i < pipelines.len() && pipelines[i].len() > 0 && !builtin_names().contains(
        pipelines[i][0],
    )
}

/// What one of the shell's own commands prints is what the program after it reads, as a
/// line.
pub proof fn law_own_output_reaches_next_program(
    pipelines: Seq<Seq<Seq<char>>>,
    i: int,
    r: RedirectionView,
    facts: FactsView,
    next_facts: FactsView,
    run: RunView,
    text: Seq<char>,
)
    requires
        0 <= i,
        is_program_at(pipelines, i + 1),
        pipelines[i].len() > 0,
        builtin_names().contains(pipelines[i][0]),
        own_output(pipelines[i], facts) == Ok::<Seq<char>, Seq<char>>(text),
    ensures
        ({
            let after = stage_at(pipelines, i, r, facts, run).1;
            stage_at(pipelines, i + 1, r, next_facts, after).0->stdin == InputView::Text(
                text.push('\n'),
            )
        }),
{
}

/// A program writes to the program after it, which reads from it and from nothing else.
pub proof fn law_program_output_reaches_next_program(
    pipelines: Seq<Seq<Seq<char>>>,
    i: int,
    r: RedirectionView,
    facts: FactsView,
    next_facts: FactsView,
    run: RunView,
)
    requires
        is_program_at(pipelines, i),
        is_program_at(pipelines, i + 1),
    ensures
        ({
            let (stage, after) = stage_at(pipelines, i, r, facts, run);
            &&& stage->stdout == OutputView::Pipe
            &&& stage_at(pipelines, i + 1, r, next_facts, after).0->stdin == InputView::Previous
        }),
{
}

/// Only the last command of a pipeline prints or writes to files; the first reads where the
/// shell does.
pub proof fn law_only_the_ends_meet_the_outside(
    pipelines: Seq<Seq<Seq<char>>>,
    i: int,
    r: RedirectionView,
    facts: FactsView,
    run: RunView,
)
    requires
        0 <= i < pipelines.len(),
    ensures
        i < pipelines.len() - 1 ==> {
            let stage = stage_at(pipelines, i, r, facts, run).0;
            &&& !(stage is Print)
            &&& !(stage is Save)
            &&& stage is Spawn ==> stage->stdout == OutputView::Pipe && stage->stderr
                == OutputView::Inherit
        },
        i == 0 && stage_at(pipelines, i, r, facts, run).0 is Spawn ==> stage_at(
            pipelines,
            i,
            r,
            facts,
            run,
        ).0->stdin == InputView::Inherit,
{
}

/// The pipeline after its first `n` commands, with `facts` giving what was found out for
/// each of them.
pub open spec fn run_after(
    pipelines: Seq<Seq<Seq<char>>>,
    r: RedirectionView,
    facts: spec_fn(int) -> FactsView,
    n: int,
) -> RunView
    decreases n,
{
    if n <= 0 {
        RunView { pending: None, children: 0 }
    } else {
        stage_at(
            pipelines,
            n - 1,
            r,
            facts(n - 1),
            run_after(pipelines, r, facts, n - 1),
        ).1
    }
}

/// At most one program per command is waiting, and one is exactly where there was a program
/// to start. In a pipeline of programs alone only the most recent one is: each other one has
/// its reader.
pub proof fn law_waiting_programs(
    pipelines: Seq<Seq<Seq<char>>>,
    r: RedirectionView,
    facts: spec_fn(int) -> FactsView,
    n: int,
)
    requires
        0 <= n <= pipelines.len(),
    ensures
        run_after(pipelines, r, facts, n).children <= n,
        run_after(pipelines, r, facts, n).children > 0 <==> exists|i: int|
            0 <= i < n && #[trigger] is_program_at(pipelines, i),
        n > 0 && (forall|i: int| 0 <= i < n ==> #[trigger] is_program_at(pipelines, i))
            ==> run_after(pipelines, r, facts, n).children == 1 && run_after(
            pipelines,
            r,
            facts,
            n,
        ).pending is None,
    decreases n,
{
    if n > 0 {
        law_waiting_programs(pipelines, r, facts, n - 1);
        let before = run_after(pipelines, r, facts, n - 1);
        let after = run_after(pipelines, r, facts, n);
        if is_program_at(pipelines, n - 1) {
            assert(after.children > 0);
        } else {
            assert(after.children == before.children);
            if after.children > 0 {
                let i = choose|i: int| 0 <= i < n - 1 && #[trigger] is_program_at(pipelines, i);
                assert(is_program_at(pipelines, i));
            }
        }
        if forall|i: int| 0 <= i < n ==> #[trigger] is_program_at(pipelines, i) {
            assert(is_program_at(pipelines, n - 1));
        }
    }
}

/// A pipeline becomes a job exactly where it runs in the background and holds a program.
pub proof fn law_jobs_hold_a_program(
    pipelines: Seq<Seq<Seq<char>>>,
    r: RedirectionView,
    facts: spec_fn(int) -> FactsView,
    run_background: bool,
)
    ensures
        ending(run_after(pipelines, r, facts, pipelines.len() as int), run_background)
            == Ending::Register <==> run_background && exists|i: int|
            0 <= i < pipelines.len() && #[trigger] is_program_at(pipelines, i),
{
    law_waiting_programs(pipelines, r, facts, pipelines.len() as int);
}

/// A pipeline of programs alone is a chain: the first program reads where the shell does, each
/// other one from the program before it, each but the last writes to the next one, and the
/// last one's output goes where the redirections say.
pub proof fn law_programs_form_a_chain(
    pipelines: Seq<Seq<Seq<char>>>,
    r: RedirectionView,
    facts: spec_fn(int) -> FactsView,
    i: int,
)
    requires
        0 <= i < pipelines.len(),
        forall|j: int| 0 <= j < pipelines.len() ==> #[trigger] is_program_at(pipelines, j),
    ensures
        stage_at(pipelines, i, r, facts(i), run_after(pipelines, r, facts, i)).0 == (
        StageView::Spawn {
            program: pipelines[i][0],
            args: pipelines[i].skip(1),
            stdin: if i == 0 {
                InputView::Inherit
            } else {
                InputView::Previous
            },
            stdout: if i < pipelines.len() - 1 {
                OutputView::Pipe
            } else {
                to_target(r.stdout_target)
            },
            stderr: if i < pipelines.len() - 1 {
                OutputView::Inherit
            } else {
                to_target(r.stderr_target)
            },
        }),
{
    law_waiting_programs(pipelines, r, facts, i);
    assert(is_program_at(pipelines, i));
}

/// Wherever a program stands in a pipeline, and whatever stands before it, it is started with
/// all its further words as arguments, in order. It reads the text that was kept for it, or
/// else what the program before it writes, or else where the shell reads from. It writes to the
/// next command; where it is the last one, its output and its errors go where the redirections
/// say. Afterwards no text is kept, and one more program is waiting unless this one reads from
/// another.
pub proof fn law_programs_get_their_words(
    pipelines: Seq<Seq<Seq<char>>>,
    i: int,
    r: RedirectionView,
    facts: FactsView,
    run: RunView,
)
    requires
        0 <= i < pipelines.len(),
        pipelines[i].len() > 0,
        !builtin_names().contains(pipelines[i][0]),
    ensures
        ({
            let (stage, after) = stage_at(pipelines, i, r, facts, run);
            let last = i == pipelines.len() - 1;
            &&& stage is Spawn
            &&& seq![stage->program] + stage->args == pipelines[i]
            &&& i > 0 && run.pending is Some ==> stage->stdin == InputView::Text(run.pending->0)
            &&& i > 0 && run.pending is None && run.children > 0 ==> stage->stdin
                == InputView::Previous
            &&& i == 0 || run.pending is None && run.children == 0 ==> stage->stdin
                == InputView::Inherit
            &&& !last ==> stage->stdout == OutputView::Pipe && stage->stderr
                == OutputView::Inherit
            &&& last && r.stdout_target is None ==> stage->stdout == OutputView::Inherit
            &&& last && r.stderr_target is None ==> stage->stderr == OutputView::Inherit
            &&& last && r.stdout_target is Some ==> stage->stdout == OutputView::File(
                (r.stdout_target->0).0,
                (r.stdout_target->0).1,
            )
            &&& last && r.stderr_target is Some ==> stage->stderr == OutputView::File(
                (r.stderr_target->0).0,
                (r.stderr_target->0).1,
            )
            &&& after.pending is None
            &&& after.children == run.children + if stage->stdin == InputView::Previous {
                0int
            } else {
                1int
            }
        }),
{
    let parts = pipelines[i];
    assert(seq![parts[0]] + parts.skip(1) =~= parts);
}

/// Wherever one of the shell's own commands stands in a pipeline, and whatever stands before it,
/// it starts no program. If it cannot be part of a pipeline its message is given. Else its text
/// is printed or written to the file where it is the last command, and is kept, with a line
/// feed after it, for the next one where it is not.
pub proof fn law_own_commands_in_a_pipeline(
    pipelines: Seq<Seq<Seq<char>>>,
    i: int,
    r: RedirectionView,
    facts: FactsView,
    run: RunView,
)
    requires
        0 <= i < pipelines.len(),
        pipelines[i].len() > 0,
        builtin_names().contains(pipelines[i][0]),
    ensures
        ({
            let (stage, after) = stage_at(pipelines, i, r, facts, run);
            let last = i == pipelines.len() - 1;
            let out = own_output(pipelines[i], facts);
            &&& after.children == run.children
            &&& out matches Err(message) ==> stage == StageView::Fail(message) && after == run
            &&& out matches Ok(text) ==> {
                &&& !last ==> stage == StageView::Hold && after.pending == Some(
                    text + seq!['\n'],
                )
                &&& last ==> after == run
                &&& last && r.stdout_target is None ==> stage == StageView::Print(text)
                &&& last && r.stdout_target is Some ==> stage == StageView::Save(
                    text,
                    (r.stdout_target->0).0,
                    (r.stdout_target->0).1,
                )
            }
        }),
{
    if own_output(pipelines[i], facts) is Ok {
        let text = own_output(pipelines[i], facts)->Ok_0;
        assert(text.push('\n') =~= text + seq!['\n']);
    }
}

/// A command without words is passed over.
pub proof fn law_empty_commands_are_passed_over(
    pipelines: Seq<Seq<Seq<char>>>,
    i: int,
    r: RedirectionView,
    facts: FactsView,
    run: RunView,
)
    requires
        0 <= i < pipelines.len(),
        pipelines[i].len() == 0,
    ensures
        stage_at(pipelines, i, r, facts, run).0 is Skip,
        stage_at(pipelines, i, r, facts, run).1 == run,
{
}

/// What the shell's own commands give in a pipeline: `echo` its words with a space between,
/// `type` what is said of the word after it, `pwd` the current directory; every other one has
/// no place in a pipeline.
pub proof fn law_own_output(name: Seq<char>, args: Seq<Seq<char>>, facts: FactsView)
    ensures
        ({
            let out = own_output(seq![name] + args, facts);
            &&& name == "echo"@ ==> out == Ok::<Seq<char>, Seq<char>>(join(args, " "@))
            &&& name == "type"@ && args.len() == 0 ==> out == Err::<Seq<char>, Seq<char>>(
                "type: missing argument"@,
            )
            &&& name == "type"@ && args.len() > 0 ==> out == Ok::<Seq<char>, Seq<char>>(
                description(args[0], facts.found),
            )
            &&& name == "pwd"@ && facts.cwd is Ok ==> out == facts.cwd
            &&& name == "pwd"@ && facts.cwd is Err ==> out == Err::<Seq<char>, Seq<char>>(
                "pwd: "@ + facts.cwd->Err_0,
            )
            &&& name != "echo"@ && name != "type"@ && name != "pwd"@ ==> out == Err::<
                Seq<char>,
                Seq<char>,
            >(name + ": not supported in pipeline"@)
        }),
{
    lemma_command_names_differ();
    assert((seq![name] + args).skip(1) =~= args);
}

/// What has to be found out: for `type` with a word after it the program of that name, unless
/// the shell carries the command out itself; for `pwd` the current directory; and nothing for
/// any other command.
pub proof fn law_queries(parts: Seq<Seq<char>>, q: Query)
    requires
        asks(parts, q),
    ensures
        parts.len() > 0 && parts[0] == "pwd"@ ==> q is CurrentDir,
        parts.len() > 1 && parts[0] == "type"@ && !builtin_names().contains(parts[1]) ==> (
        q matches Query::FindProgram(name) && name@ == parts[1]),
        parts.len() > 1 && parts[0] == "type"@ && builtin_names().contains(parts[1])
            ==> q is Nothing,
        parts.len() == 0 || parts.len() == 1 && parts[0] != "pwd"@ || parts[0] != "pwd"@
            && parts[0] != "type"@ ==> q is Nothing,
{
    lemma_command_names_differ();
}

/// What has been found out matters for nothing but `type` and `pwd`.
pub proof fn law_facts_matter_only_where_asked_for(
    pipelines: Seq<Seq<Seq<char>>>,
    i: int,
    r: RedirectionView,
    facts: FactsView,
    others: FactsView,
    run: RunView,
)
    requires
        0 <= i < pipelines.len(),
        pipelines[i].len() > 0 ==> pipelines[i][0] != "type"@ && pipelines[i][0] != "pwd"@,
    ensures
        stage_at(pipelines, i, r, facts, run) == stage_at(pipelines, i, r, others, run),
{
}

/// In the foreground programs are waited for, and in the background one becomes a job if one is
/// waiting.
pub proof fn law_endings(run: RunView)
    ensures
        ending(run, false) == Ending::Wait,
        run.children > 0 ==> ending(run, true) == Ending::Register,
        run.children == 0 ==> ending(run, true) == Ending::Nothing,
{
}

/// Output that is redirected goes to the file, with the mark whether it is appended; output
/// that is not goes where the shell's does, and is printed if it is the shell's own.
pub proof fn law_targets(text: Seq<char>, name: Seq<char>, append: bool)
    ensures
        to_target(Some((name, append))) == OutputView::File(name, append),
        to_target(None) == OutputView::Inherit,
        put_out(text, Some((name, append))) == StageView::Save(text, name, append),
        put_out(text, None) == StageView::Print(text),
{
}

} // verus!
