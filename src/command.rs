//! Trees of command-line interfaces: a command over its subcommands and its
//! arguments. Commands are read from clap's builder.
use crate::tree::{lemma_values_of_push, values_of, Tree, TreeValue};
use vstd::prelude::*;

verus! {

/// An argument of a command.
pub struct ArgumentInfo {
    /// Its id.
    pub id: String,
    /// Its short flag, without the dash.
    pub short: Option<String>,
    /// Its long flag, without the dashes.
    pub long: Option<String>,
    /// Its help text.
    pub help: Option<String>,
}

/// A command: its name, subcommands and arguments, in declaration order.
pub struct CommandInfo {
    pub name: String,
    pub subcommands: Vec<CommandInfo>,
    pub arguments: Vec<ArgumentInfo>,
}

/// How an argument is named: "-s", "--long", "-s, --long", or its id
/// where it has no flag.
pub open spec fn argument_flags(a: ArgumentInfo) -> Seq<char> {
    match (a.short, a.long) {
        (Some(s), Some(l)) => "-"@ + s@ + ", "@ + "--"@ + l@,
        (Some(s), None) => "-"@ + s@,
        (None, Some(l)) => "--"@ + l@,
        (None, None) => a.id@,
    }
}

/// The leaf line of an argument: "arg: " and its flags, then its help in
/// parentheses if it has any.
pub open spec fn argument_line(a: ArgumentInfo) -> Seq<char> {
    "arg: "@ + argument_flags(a) + match a.help {
        Some(h) => " ("@ + h@ + ")"@,
        None => Seq::empty(),
    }
}

/// The tree of a command: a node over its subcommands' trees and then one
/// leaf per argument; a leaf of its name where it has neither.
pub open spec fn command_tree(c: CommandInfo) -> TreeValue
    decreases c, 0int,
{
    let kids = subcommand_trees(c.subcommands@, c.subcommands.len() as int) + c.arguments@.map_values(
        |a: ArgumentInfo| TreeValue::Leaf(seq![argument_line(a)]),
    );
    if kids.len() == 0 {
        TreeValue::Leaf(seq![c.name@])
    } else {
        TreeValue::Node(c.name@, kids)
    }
}

/// The trees of the first `k` subcommands.
pub open spec fn subcommand_trees(cs: Seq<CommandInfo>, k: int) -> Seq<TreeValue>
    decreases cs, k,
{
    if k <= 0 || k > cs.len() {
        Seq::empty()
    } else {
        subcommand_trees(cs, k - 1).push(command_tree(cs[k - 1]))
    }
}

/// The leaf line of an argument.
fn argument_text(a: &ArgumentInfo) -> (r: String)
    ensures
        r@ == argument_line(*a),
{
    let mut s = String::from_str("arg: ");
    match &a.short {
        Some(sh) => {
            s.append("-");
            s.append(sh.as_str());
            match &a.long {
                Some(l) => {
                    s.append(", ");
                    s.append("--");
                    s.append(l.as_str());
                },
                None => {},
            }
        },
        None => match &a.long {
            Some(l) => {
                s.append("--");
                s.append(l.as_str());
            },
            None => s.append(a.id.as_str()),
        },
    }
    match &a.help {
        Some(h) => {
            s.append(" (");
            s.append(h.as_str());
            s.append(")");
        },
        None => {},
    }
    s
}

impl Tree {
    /// The tree of a command, as `command_tree` describes it.
    pub fn from_command_info(c: &CommandInfo) -> (r: Tree)
        ensures
            r@ == command_tree(*c),
        decreases c,
    {
        let mut out: Vec<Tree> = Vec::new();
        let mut i: usize = 0;
        while i < c.subcommands.len()
            invariant
                i <= c.subcommands@.len(),
                values_of(out@) == subcommand_trees(c.subcommands@, i as int),
            decreases c.subcommands@.len() - i,
        {
            proof {
                assert(decreases_to!(*c => c.subcommands));
                assert(decreases_to!(c.subcommands => c.subcommands@));
                assert(decreases_to!(c.subcommands@ => c.subcommands@[i as int]));
            }
            let t = Tree::from_command_info(&c.subcommands[i]);
            proof {
                lemma_values_of_push(out@, t);
            }
            out.push(t);
            i = i + 1;
        }
        let ghost subs = values_of(out@);
        let mut j: usize = 0;
        while j < c.arguments.len()
            invariant
                j <= c.arguments@.len(),
                values_of(out@) == subs + c.arguments@.take(j as int).map_values(
                    |a: ArgumentInfo| TreeValue::Leaf(seq![argument_line(a)]),
                ),
            decreases c.arguments@.len() - j,
        {
            let mut lines: Vec<String> = Vec::new();
            lines.push(argument_text(&c.arguments[j]));
            let leaf = Tree::Leaf(lines);
            assert(crate::tree::texts(lines@) =~= seq![argument_line(c.arguments@[j as int])]);
            proof {
                lemma_values_of_push(out@, leaf);
                assert(c.arguments@.take(j + 1).map_values(
                    |a: ArgumentInfo| TreeValue::Leaf(seq![argument_line(a)]),
                ) =~= c.arguments@.take(j as int).map_values(
                    |a: ArgumentInfo| TreeValue::Leaf(seq![argument_line(a)]),
                ).push(TreeValue::Leaf(seq![argument_line(c.arguments@[j as int])])));
            }
            out.push(leaf);
            j = j + 1;
        }
        proof {
            assert(c.arguments@.take(j as int) =~= c.arguments@);
            crate::tree::lemma_values_of(out@);
        }
        if out.len() == 0 {
            let mut lines: Vec<String> = Vec::new();
            lines.push(c.name.clone());
            assert(crate::tree::texts(lines@) =~= seq![c.name@]);
            Tree::Leaf(lines)
        } else {
            Tree::Node(c.name.clone(), out)
        }
    }
}

#[verifier::external_type_specification]
#[verifier::external_body]
pub struct ExClapCommand(clap::Command);

/// Relies on clap's `Command` and `Arg` accessors: the command's name,
/// subcommands and arguments in declaration order; each argument's id,
/// short and long flags, and help text as plain strings.
#[verifier::external_body]
fn command_info(cmd: &clap::Command) -> CommandInfo {
    CommandInfo {
        name: cmd.get_name().to_string(),
        subcommands: cmd.get_subcommands().map(command_info).collect(),
        arguments: cmd.get_arguments().map(|a| ArgumentInfo {
            id: a.get_id().as_str().to_string(),
            short: a.get_short().map(|c| c.to_string()),
            long: a.get_long().map(|l| l.to_string()),
            help: a.get_help().map(|h| h.to_string()),
        }).collect(),
    }
}

impl Tree {
    /// The tree of a clap command: a node over its subcommands and then one
    /// leaf per argument; a leaf of its name where it has neither.
    pub fn from_clap_command(cmd: &clap::Command) -> (r: Tree)
        ensures
            exists|c: CommandInfo| r@ == #[trigger] command_tree(c),
    {
        let info = command_info(cmd);
        Tree::from_command_info(&info)
    }
}

} // verus!
