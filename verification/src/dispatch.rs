//! Turning the command line of the toolbox into the tool that it names.

use vstd::prelude::*;

verus! {

/// A tool to run: the program and the arguments handed to it.
pub struct Command {
    /// The program, named as the toolbox followed by a dash and the tool.
    pub program: String,
    /// The arguments that follow the tool's name.
    pub arguments: Vec<String>,
}

/// The command that the toolbox's command line names: with at least a tool after the
/// toolbox's own name, the program `prefix-tool` with the remaining arguments; without
/// one, none (the toolbox then shows its usage).
pub fn command(prefix: &str, arguments: &Vec<String>) -> (r: Option<Command>)
    ensures
        arguments@.len() <= 1 <==> r is None,
        r matches Some(c) ==> {
            &&& c.program@ == prefix@ + seq!['-'] + arguments@[1]@
            &&& c.arguments@ == arguments@.skip(2)
        },
{
    if arguments.len() <= 1 {
        return None;
    }
    let mut program = String::from_str(prefix);
    program.append("-");
    program.append(arguments[1].as_str());
    proof {
        reveal_strlit("-");
        assert("-"@ =~= seq!['-']);
    }
    let mut rest: Vec<String> = Vec::new();
    let mut i: usize = 2;
    while i < arguments.len()
        invariant
            2 <= i <= arguments@.len(),
            rest@ =~= arguments@.subrange(2, i as int),
        decreases arguments@.len() - i,
    {
        rest.push(arguments[i].clone());
        i += 1;
    }
    assert(arguments@.subrange(2, arguments@.len() as int) =~= arguments@.skip(2));
    Some(Command { program, arguments: rest })
}

} // verus!
