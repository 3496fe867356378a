//! One press of the tab key, from what was found for it to the answer.
use vstd::prelude::*;

use crate::complete::{Plan, PlanView};
use crate::format::join;
use crate::order::views;
use crate::paths::{find_files_matching, law_matching_files_start_with_prefix, matching_files};
use crate::prefix::{common, common_prefix_defined, entry_names, has_common_prefix, names};
use crate::tab::{
    command_answer, command_matches, complete_argument_by_script, complete_command,
    complete_command_by_script, complete_file, file_answer, law_command_insertion_extends,
    law_file_insertion_extends, law_matching_commands_start_with_word,
    law_second_press_lists_commands, law_second_press_lists_files,
    law_second_press_lists_script_arguments, law_second_press_lists_script_commands, listed_all,
    matching_commands, nothing_at, opt_tab, script_argument_answer, script_command_answer, shown,
    Completion, CompletionView, Notice, NoticeView, TabState, TabView,
};
use crate::text::{clone_texts, texts};

verus! {

/// What was found for a press: the candidates of the script, if it was asked and offers any;
/// else the programs that start with the word, for a command, and the entries of the
/// directory, for an argument.
pub struct Found {
    pub script: Option<Vec<String>>,
    pub programs: Vec<String>,
    pub entries: Vec<(String, bool)>,
}

/// What `Found` stands for.
pub struct FoundView {
    pub script: Option<Seq<Seq<char>>>,
    pub programs: Seq<Seq<char>>,
    pub entries: Seq<(Seq<char>, bool)>,
}

impl View for Found {
    type V = FoundView;

    open spec fn view(&self) -> FoundView {
        FoundView {
            script: match self.script {
                Some(list) => Some(texts(list@)),
                None => None,
            },
            programs: texts(self.programs@),
            entries: views(self.entries@),
        }
    }
}

/// The answer to a press, and what is remembered of it. What a script offers goes before
/// everything else; without an offer a command is completed from the programs and the
/// shell's own commands, and an argument from the files.
pub open spec fn press_answer(
    line: Seq<char>,
    pos: nat,
    plan: PlanView,
    found: FoundView,
    state: Option<TabView>,
) -> (CompletionView, Option<TabView>) {
    match plan {
        PlanView::Nothing => (nothing_at(0, NoticeView::Silent), state),
        PlanView::Idle => (nothing_at(pos, NoticeView::Silent), state),
        PlanView::Command { word, completer } => match found.script {
            Some(list) => script_command_answer(line, pos, list, state),
            None => command_answer(
                line,
                pos,
                word,
                matching_commands(word, found.programs),
                state,
            ),
        },
        PlanView::Argument { start, word, completer, dir, prefix, base } => match found.script {
            Some(list) => script_argument_answer(line, pos, start, word, list, state),
            None => file_answer(
                line,
                pos,
                start,
                dir,
                prefix,
                base,
                matching_files(prefix, found.entries),
                state,
            ),
        },
    }
}

/// Whether there is an answer: not where a common prefix is needed that is not defined.
pub open spec fn has_answer(plan: PlanView, found: FoundView) -> bool {
    match plan {
        PlanView::Nothing => true,
        PlanView::Idle => true,
        PlanView::Command { word, completer } => found.script is Some || has_common_prefix(
            matching_commands(word, found.programs),
        ),
        PlanView::Argument { start, word, completer, dir, prefix, base } => match found.script {
            Some(list) => has_common_prefix(list),
            None => has_common_prefix(names(matching_files(prefix, found.entries))),
        },
    }
}

/// Whether there is an answer to a press.
pub fn can_answer(plan: &Plan, found: &Found) -> (r: bool)
    ensures
        r == has_answer(plan@, found@),
{
    match plan {
        Plan::Nothing => true,
        Plan::Idle => true,
        Plan::Command { word, .. } => found.script.is_some() || common_prefix_defined(
            &command_matches(word, clone_texts(&found.programs)),
        ),
        Plan::Argument { prefix, .. } => match &found.script {
            Some(list) => common_prefix_defined(list),
            None => common_prefix_defined(
                &entry_names(&find_files_matching(prefix, &found.entries)),
            ),
        },
    }
}

/// Answers a press of the tab key with the cursor at byte `pos` of the line.
pub fn answer_press(
    line: &str,
    pos: usize,
    plan: &Plan,
    found: &Found,
    state: &mut Option<TabState>,
) -> (r: Completion)
    requires
        has_answer(plan@, found@),
    ensures
        (r@, opt_tab(*final(state))) == press_answer(
            line@,
            pos as nat,
            plan@,
            found@,
            opt_tab(*old(state)),
        ),
{
    match plan {
        Plan::Nothing => Completion { start: 0, candidate: None, notice: Notice::Silent },
        Plan::Idle => Completion { start: pos, candidate: None, notice: Notice::Silent },
        Plan::Command { word, .. } => match &found.script {
            Some(list) => complete_command_by_script(line, pos, list, state),
            None => {
                let list = command_matches(word, clone_texts(&found.programs));
                complete_command(line, pos, word, &list, state)
            },
        },
        Plan::Argument { start, word, dir, prefix, base, .. } => match &found.script {
            Some(list) => complete_argument_by_script(line, pos, *start, word, list, state),
            None => {
                let list = find_files_matching(prefix, &found.entries);
                complete_file(line, pos, *start, dir, prefix, base, &list, state)
            },
        },
    }
}

/// What was typed of the word that is being completed.
pub open spec fn typed_part(plan: PlanView) -> Seq<char> {
    match plan {
        PlanView::Command { word, .. } => word,
        PlanView::Argument { base, prefix, .. } => base + prefix,
        _ => Seq::empty(),
    }
}

/// Without a script, completion never takes back what was typed: what is put into the line
/// starts with it.
pub proof fn law_completion_extends_what_was_typed(
    line: Seq<char>,
    pos: nat,
    plan: PlanView,
    found: FoundView,
    state: Option<TabView>,
)
    requires
        found.script is None,
        plan is Command ==> common(found.programs, typed_part(plan)),
    ensures
        press_answer(line, pos, plan, found, state).0.candidate matches Some((_, replacement))
            ==> typed_part(plan).is_prefix_of(replacement),
{
    match plan {
        PlanView::Command { word, completer } => {
            let list = matching_commands(word, found.programs);
            law_matching_commands_start_with_word(word, found.programs);
            law_command_insertion_extends(line, pos, word, list, state);
        },
        PlanView::Argument { start, word, completer, dir, prefix, base } => {
            let list = matching_files(prefix, found.entries);
            law_matching_files_start_with_prefix(prefix, found.entries);
            assert(common(names(list), prefix)) by {
                assert forall|i: int| 0 <= i < names(list).len() implies prefix.is_prefix_of(
                    #[trigger] names(list)[i],
                ) by {
                    assert(names(list)[i] == list[i].0);
                }
            }
            law_file_insertion_extends(line, pos, start, dir, prefix, base, list, state);
        },
        _ => {},
    }
}

/// What there is to choose from, as it is listed.
pub open spec fn choices(plan: PlanView, found: FoundView) -> Seq<Seq<char>> {
    match plan {
        PlanView::Command { word, completer } => match found.script {
            Some(list) => list,
            None => matching_commands(word, found.programs),
        },
        PlanView::Argument { start, word, completer, dir, prefix, base } => match found.script {
            Some(list) => list,
            None => listed_all(matching_files(prefix, found.entries)),
        },
        _ => Seq::empty(),
    }
}

/// A single choice is inserted, and without a choice nothing happens to the line.
pub proof fn law_single_choice_is_inserted(
    line: Seq<char>,
    pos: nat,
    plan: PlanView,
    found: FoundView,
    state: Option<TabView>,
)
    ensures
        choices(plan, found).len() == 0 ==> press_answer(line, pos, plan, found, state).0.candidate
            is None,
        choices(plan, found).len() == 1 ==> press_answer(line, pos, plan, found, state).0.candidate
            is Some,
{
}

/// Where there is more than one choice, pressing the key again on the same line lists the
/// choices, whatever the first press did: nothing is inserted, and the prompt and the line
/// follow below the list.
pub proof fn law_second_press_lists_choices(
    line: Seq<char>,
    pos: nat,
    plan: PlanView,
    found: FoundView,
    state: Option<TabView>,
)
    requires
        choices(plan, found).len() >= 2,
    ensures
        ({
            let after = press_answer(line, pos, plan, found, state).1;
            press_answer(line, pos, plan, found, after).0 == nothing_at(
                pos,
                NoticeView::Show(shown(join(choices(plan, found), "  "@), line)),
            )
        }),
{
    match plan {
        PlanView::Command { word, completer } => match found.script {
            Some(list) => law_second_press_lists_script_commands(line, pos, list, state),
            None => law_second_press_lists_commands(
                line,
                pos,
                word,
                matching_commands(word, found.programs),
                state,
            ),
        },
        PlanView::Argument { start, word, completer, dir, prefix, base } => match found.script {
            Some(list) => law_second_press_lists_script_arguments(
                line,
                pos,
                start,
                word,
                list,
                list,
                state,
            ),
            None => {
                let list = matching_files(prefix, found.entries);
                law_second_press_lists_files(
                    line,
                    pos,
                    start,
                    dir,
                    prefix,
                    base,
                    list,
                    list,
                    state,
                );
            },
        },
        _ => {},
    }
}

/// What a script offers goes before everything else. Without an offer a command is completed
/// from the programs found and the shell's own commands, and an argument from the entries of its
/// directory. Where nothing was typed, or a script has no word to complete, nothing happens.
pub proof fn law_scripts_go_first(
    line: Seq<char>,
    pos: nat,
    plan: PlanView,
    found: FoundView,
    state: Option<TabView>,
)
    ensures
        plan is Nothing ==> press_answer(line, pos, plan, found, state) == (
            nothing_at(0, NoticeView::Silent),
            state,
        ),
        plan is Idle ==> press_answer(line, pos, plan, found, state) == (
            nothing_at(pos, NoticeView::Silent),
            state,
        ),
        plan is Command && found.script is Some ==> press_answer(line, pos, plan, found, state)
            == script_command_answer(line, pos, found.script->0, state),
        plan is Command && found.script is None ==> press_answer(line, pos, plan, found, state)
            == command_answer(
            line,
            pos,
            plan->Command_word,
            matching_commands(plan->Command_word, found.programs),
            state,
        ),
        plan is Argument && found.script is Some ==> press_answer(line, pos, plan, found, state)
            == script_argument_answer(
            line,
            pos,
            plan->start,
            plan->Argument_word,
            found.script->0,
            state,
        ),
        plan is Argument && found.script is None ==> press_answer(line, pos, plan, found, state)
            == file_answer(
            line,
            pos,
            plan->start,
            plan->dir,
            plan->prefix,
            plan->base,
            matching_files(plan->prefix, found.entries),
            state,
        ),
{
}

/// There is an answer unless a common prefix is needed that is not defined: of the matching
/// commands, of the offers for an argument, or of the names of matching files.
pub proof fn law_where_there_is_an_answer(plan: PlanView, found: FoundView)
    ensures
        !has_answer(plan, found) <==> {
            ||| plan is Command && found.script is None && !has_common_prefix(
                matching_commands(plan->Command_word, found.programs),
            )
            ||| plan is Argument && found.script is Some && !has_common_prefix(found.script->0)
            ||| plan is Argument && found.script is None && !has_common_prefix(
                names(matching_files(plan->prefix, found.entries)),
            )
        },
{
}

} // verus!
