//! The commands that the shell carries out itself.
use vstd::prelude::*;
use vstd::string::*;

use crate::text::same;

verus! {

/// The names of the commands that the shell carries out itself.
pub open spec fn builtin_names() -> Seq<Seq<char>> {
    seq![
        "echo"@,
        "exit"@,
        "type"@,
        "pwd"@,
        "cd"@,
        "complete"@,
        "jobs"@,
        "history"@,
        "declare"@,
    ]
}

/// The names of the commands that the shell carries out itself.
pub fn builtins() -> (r: Vec<&'static str>)
    ensures
        r@.len() == builtin_names().len(),
        forall|i: int| 0 <= i < r@.len() ==> (#[trigger] r@[i])@ == builtin_names()[i],
{
    let mut v: Vec<&'static str> = Vec::new();
    v.push("echo");
    v.push("exit");
    v.push("type");
    v.push("pwd");
    v.push("cd");
    v.push("complete");
    v.push("jobs");
    v.push("history");
    v.push("declare");
    v
}

/// Whether the shell carries out the command itself.
pub fn is_builtin(cmd: &str) -> (r: bool)
    ensures
        r == builtin_names().contains(cmd@),
{
    let names = builtins();
    let mut i: usize = 0;
    while i < names.len()
        invariant
            i <= names@.len(),
            names@.len() == builtin_names().len(),
            forall|j: int| 0 <= j < names@.len() ==> (#[trigger] names@[j])@ == builtin_names()[j],
            forall|j: int| 0 <= j < i ==> builtin_names()[j] != cmd@,
        decreases names@.len() - i,
    {
        if same(names[i], cmd) {
            assert(builtin_names()[i as int] == cmd@);
            return true;
        }
        assert(names@[i as int]@ == builtin_names()[i as int]);
        i = i + 1;
    }
    false
}

/// What `type` says about a command: whether the shell carries it out itself, else
/// where its program is, if it was found.
pub open spec fn description(command: Seq<char>, found: Option<Seq<char>>) -> Seq<char> {
    if builtin_names().contains(command) {
        command + " is a shell builtin"@
    } else {
        match found {
            Some(path) => command + " is "@ + path,
            None => command + ": not found"@,
        }
    }
}

/// The text in an option.
pub open spec fn opt_text(t: Option<String>) -> Option<Seq<char>> {
    match t {
        Some(s) => Some(s@),
        None => None,
    }
}

/// What `type` says about a command.
pub fn describe_command(command: &str, found: &Option<String>) -> (r: String)
    ensures
        r@ == description(command@, opt_text(*found)),
{
    let mut out = command.to_owned();
    if is_builtin(command) {
        out.append(" is a shell builtin");
    } else {
        match found {
            Some(path) => {
                out.append(" is ");
                out.append(path);
            },
            None => {
                out.append(": not found");
            },
        }
    }
    out
}

/// The shell carries out nine commands itself, and no other.
pub proof fn law_builtin_names(name: Seq<char>)
    ensures
        builtin_names().contains(name) <==> name == "echo"@ || name == "exit"@ || name == "type"@
            || name == "pwd"@ || name == "cd"@ || name == "complete"@ || name == "jobs"@ || name
            == "history"@ || name == "declare"@,
{
    let all = builtin_names();
    assert(all[0] == "echo"@ && all[1] == "exit"@ && all[2] == "type"@ && all[3] == "pwd"@);
    assert(all[4] == "cd"@ && all[5] == "complete"@ && all[6] == "jobs"@);
    assert(all[7] == "history"@ && all[8] == "declare"@);
}

/// What is said of a command that the shell carries out itself does not depend on whether a
/// program of its name was found; of others it is said where the program is, or that there is
/// none.
pub proof fn law_descriptions(name: Seq<char>, path: Seq<char>)
    ensures
        builtin_names().contains(name) ==> description(name, None) == name
            + " is a shell builtin"@ && description(name, Some(path)) == name
            + " is a shell builtin"@,
        !builtin_names().contains(name) ==> description(name, None) == name + ": not found"@
            && description(name, Some(path)) == name + " is "@ + path,
{
}

/// The names of the shell's own commands differ.
pub proof fn lemma_command_names_differ()
    ensures
        "echo"@.len() == 4 && "exit"@.len() == 4 && "type"@.len() == 4 && "jobs"@.len() == 4,
        "pwd"@.len() == 3 && "cd"@.len() == 2 && "complete"@.len() == 8,
        "history"@.len() == 7 && "declare"@.len() == 7,
        "echo"@ != "exit"@ && "echo"@ != "type"@ && "echo"@ != "jobs"@,
        "exit"@ != "type"@ && "exit"@ != "jobs"@ && "type"@ != "jobs"@,
        "history"@ != "declare"@,
{
    reveal_strlit("echo");
    reveal_strlit("exit");
    reveal_strlit("type");
    reveal_strlit("jobs");
    reveal_strlit("pwd");
    reveal_strlit("cd");
    reveal_strlit("complete");
    reveal_strlit("history");
    reveal_strlit("declare");
    assert("echo"@[1] == 'c' && "exit"@[1] == 'x' && "type"@[1] == 'y' && "jobs"@[1] == 'o');
    assert("history"@[0] == 'h' && "declare"@[0] == 'd');
}

/// No name of the shell's own commands is there twice.
pub proof fn lemma_builtin_names_distinct()
    ensures
        builtin_names().no_duplicates(),
{
    lemma_command_names_differ();
}

} // verus!
