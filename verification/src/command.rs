//! The commands of the interactive surface: what a line of input, already
//! cut into upper-case words, asks for.

use vstd::prelude::*;

verus! {

/// What the user asks for.
#[derive(Debug)]
pub enum Command {
    /// Nothing was entered.
    Empty,
    /// Add every section of a course to the selection.
    Add { code: String },
    /// Add the sections of a course whose identifier begins with `section`.
    AddSection { code: String, section: String },
    /// Take a course out of the selection.
    Remove { code: String },
    /// Empty the selection.
    Clear,
    /// List what can still be attended beside the selection.
    Find,
    /// List what can still be attended, among the courses whose code holds
    /// `code`.
    FindCode { code: String },
    /// List every timetable of the selection.
    Schedule,
    /// Leave.
    Exit,
    /// A known command with the wrong number of words.
    Malformed,
    /// No known command.
    Unknown,
}

/// `cmd` is what the words of `input` ask for.
pub open spec fn parses_to(input: Seq<String>, cmd: Command) -> bool {
    if input.len() == 0 {
        cmd is Empty
    } else {
        let word = input[0]@;
        if word == "ADD"@ || word == "+"@ {
            if input.len() == 2 {
                cmd matches Command::Add { code } && code@ == input[1]@
            } else if input.len() == 3 {
                cmd matches Command::AddSection { code, section } && code@ == input[1]@ && section@
                    == input[2]@
            } else {
                cmd is Malformed
            }
        } else if word == "REMOVE"@ || word == "-"@ {
            if input.len() >= 2 {
                cmd matches Command::Remove { code } && code@ == input[1]@
            } else {
                cmd is Malformed
            }
        } else if word == "CLEAR"@ || word == "--"@ {
            cmd is Clear
        } else if word == "FIND"@ || word == "LS"@ {
            if input.len() == 2 {
                cmd matches Command::FindCode { code } && code@ == input[1]@
            } else {
                cmd is Find
            }
        } else if word == "SCHEDULE"@ || word == "S"@ {
            cmd is Schedule
        } else if word == "EXIT"@ {
            cmd is Exit
        } else {
            cmd is Unknown
        }
    }
}

/// Whether `token` reads `word`.
fn reads(token: &String, word: &str) -> (r: bool)
    ensures
        r == (token@ == word@),
{
    let wanted: String = word.to_owned();
    *token == wanted
}

/// The command that the words of one line of input ask for. The first word
/// names the command, by its name or its short form; the words after it are
/// its arguments.
pub fn parse_command(input: &Vec<String>) -> (r: Command)
    ensures
        parses_to(input@, r),
{
    if input.len() == 0 {
        return Command::Empty;
    }
    let word = &input[0];
    if reads(word, "ADD") || reads(word, "+") {
        if input.len() == 2 {
            Command::Add { code: input[1].clone() }
        } else if input.len() == 3 {
            Command::AddSection { code: input[1].clone(), section: input[2].clone() }
        } else {
            Command::Malformed
        }
    } else if reads(word, "REMOVE") || reads(word, "-") {
        if input.len() >= 2 {
            Command::Remove { code: input[1].clone() }
        } else {
            Command::Malformed
        }
    } else if reads(word, "CLEAR") || reads(word, "--") {
        Command::Clear
    } else if reads(word, "FIND") || reads(word, "LS") {
        if input.len() == 2 {
            Command::FindCode { code: input[1].clone() }
        } else {
            Command::Find
        }
    } else if reads(word, "SCHEDULE") || reads(word, "S") {
        Command::Schedule
    } else if reads(word, "EXIT") {
        Command::Exit
    } else {
        Command::Unknown
    }
}

} // verus!
