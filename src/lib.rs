//! A compiler front end for a hypertext-fiction format: passages of text,
//! formatting spans, links and macros with expressions.
//!
//! - [`token`]: the lexical symbols that a scanner hands over.
//! - [`parser`]: a table-driven LL(1) parser that builds the syntax tree.
//! - [`ast`]: the syntax tree and the cursor that the parser edits it with.
//! - [`expressionparser`]: operator-precedence normalization of expressions.
//! - [`zcode`]: the walk that turns the tree into emitter calls.
use vstd::prelude::*;

pub mod token;
pub mod ast;
pub mod expressionparser;
pub mod zcode;
pub mod parser;

verus! {

/// What the command line asks for.
pub enum Command {
    /// Compile `input` into `output`.
    Compile { input: String, output: String },
    /// Show how to call the program.
    Help,
}

/// The command that the program's arguments (its own name first) ask for:
/// no argument compiles `a.in` into `a.out`, two name the input and output
/// files, any other number asks for help.
pub fn command_for(args: &Vec<String>) -> (r: Command)
    ensures
        args@.len() == 1 ==> (r matches Command::Compile { input, output } && input@ == "a.in"@ && output@
            == "a.out"@),
        args@.len() == 3 ==> (r matches Command::Compile { input, output } && input@ == args@[1]@ && output@
            == args@[2]@),
        args@.len() != 1 && args@.len() != 3 ==> r is Help,
{
    if args.len() == 1 {
        Command::Compile { input: "a.in".to_owned(), output: "a.out".to_owned() }
    } else if args.len() == 3 {
        Command::Compile { input: args[1].clone(), output: args[2].clone() }
    } else {
        Command::Help
    }
}

/// The usage message of the command line.
pub fn help() -> (r: String)
    ensures
        r@ == "usage:\n    zwreec <input_file> <output_file>"@,
{
    "usage:\n    zwreec <input_file> <output_file>".to_owned()
}

} // verus!
