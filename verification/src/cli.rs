//! What the command line asks to be run.

use vstd::prelude::*;

verus! {

/// What is to be traced.
pub enum Target {
    Script(String),
    Module(String),
}

/// What is to be run, and with which arguments.
pub struct Command {
    pub target: Target,
    /// What the program finds as its arguments: its own name first.
    pub argv: Vec<String>,
}

/// Splits the target from the arguments that belong to it. As with `python -m`, the
/// name of a module is the first of its own arguments.
pub fn split_target(module: Vec<String>, script: Option<String>, script_args: Vec<String>) -> (r: (
    Target,
    Vec<String>,
    String,
))
    requires
        script is Some || module@.len() > 0,
    ensures
        match script {
            Some(s) => r.0 == Target::Script(s) && r.1@ == script_args@ && r.2 == s,
            None => r.0 == Target::Module(module@[0]) && r.1@ == module@.skip(1) && r.2
                == module@[0],
        },
{
    match script {
        Some(script) => (Target::Script(script.clone()), script_args, script),
        None => {
            let mut rest = module;
            let name = rest.remove(0);
            assert(rest@ =~= module@.skip(1));
            (Target::Module(name.clone()), rest, name)
        },
    }
}

/// The arguments of a program: its own name, and then those it was given.
pub fn full_argv(argv0: String, args: Vec<String>) -> (argv: Vec<String>)
    ensures
        argv@ == seq![argv0] + args@,
{
    let mut argv = args;
    argv.insert(0, argv0);
    assert(argv@ =~= seq![argv0] + args@);
    argv
}

/// What the command line asks to be run.
pub fn command(module: Vec<String>, script: Option<String>, script_args: Vec<String>) -> (c:
    Command)
    requires
        script is Some || module@.len() > 0,
    ensures
        match script {
            Some(s) => c.target == Target::Script(s) && c.argv@ == seq![s] + script_args@,
            None => c.target == Target::Module(module@[0]) && c.argv@ == module@,
        },
{
    let (target, args, argv0) = split_target(module, script, script_args);
    let argv = full_argv(argv0, args);
    assert(script is None ==> argv@ =~= module@);
    Command { target, argv }
}

/// A program is run with its own name before the arguments that it was given, and with all
/// of these in order. A script comes before a module.
pub proof fn a_program_finds_its_name_and_its_arguments(
    module: Vec<String>,
    script: Option<String>,
    script_args: Vec<String>,
    c: Command,
)
    requires
        script is Some || module@.len() > 0,
        call_ensures(command, (module, script, script_args), c),
    ensures
        c.argv@.len() > 0,
        script matches Some(s) ==> c.target == Target::Script(s) && c.argv@[0] == s && c.argv@.skip(1)
            == script_args@,
        script is None ==> c.target == Target::Module(c.argv@[0]) && c.argv@ == module@,
{
    if let Some(s) = script {
        assert(c.argv@.skip(1) =~= script_args@);
    }
}

} // verus!
