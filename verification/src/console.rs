//! Texts shown by the interactive console: one-line summaries of the agent's tool calls.

use vstd::prelude::*;

use crate::text::push_str;

verus! {

/// At most the first `max` characters of `s`.
pub open spec fn truncated(s: Seq<char>, max: usize) -> Seq<char> {
    if s.len() <= max {
        s
    } else {
        s.take(max as int)
    }
}

/// At most the first `max` characters of `s`.
pub fn truncate(s: &str, max: usize) -> (r: &str)
    ensures
        r@ == truncated(s@, max),
{
    let n = s.unicode_len();
    if n <= max {
        s
    } else {
        let r = s.substring_char(0, max);
        assert(r@ =~= s@.take(max as int));
        r
    }
}

/// The argument of a tool call that its summary shows, if the tool is one that is
/// summarised with an argument.
pub open spec fn summary_key_spec(tool: Seq<char>) -> Option<Seq<char>> {
    if tool == "bash"@ {
        Some("command"@)
    } else if tool == "read_file"@ || tool == "write_file"@ || tool == "edit_file"@ || tool == "list_files"@ {
        Some("path"@)
    } else if tool == "search"@ {
        Some("pattern"@)
    } else {
        None
    }
}

/// The text of an optional argument, or a placeholder.
pub open spec fn arg_or(arg: Option<Seq<char>>, placeholder: Seq<char>) -> Seq<char> {
    match arg {
        Some(a) => a,
        None => placeholder,
    }
}

/// One-line summary of a tool call, given the text of the argument its summary shows (see
/// [`summary_key_spec`]) when the call has one.
pub open spec fn tool_summary_spec(tool: Seq<char>, arg: Option<Seq<char>>) -> Seq<char> {
    if tool == "bash"@ {
        "$ "@ + truncated(arg_or(arg, "..."@), 80)
    } else if tool == "read_file"@ {
        "read "@ + arg_or(arg, "?"@)
    } else if tool == "write_file"@ {
        "write "@ + arg_or(arg, "?"@)
    } else if tool == "edit_file"@ {
        "edit "@ + arg_or(arg, "?"@)
    } else if tool == "list_files"@ {
        "ls "@ + arg_or(arg, "."@)
    } else if tool == "search"@ {
        "search '"@ + truncated(arg_or(arg, "?"@), 60) + "'"@
    } else {
        tool
    }
}

/// The tool's name is the given literal.
fn named(tool: &String, lit: &str) -> (b: bool)
    ensures
        b == (tool@ == lit@),
{
    *tool == String::from_str(lit)
}

/// The argument of a tool call that its summary shows.
pub fn summary_key(tool: &str) -> (k: Option<&'static str>)
    ensures
        match k {
            Some(key) => summary_key_spec(tool@) == Some(key@),
            None => summary_key_spec(tool@) is None,
        },
{
    let t = String::from_str(tool);
    if named(&t, "bash") {
        Some("command")
    } else if named(&t, "read_file") || named(&t, "write_file") || named(&t, "edit_file") || named(&t, "list_files") {
        Some("path")
    } else if named(&t, "search") {
        Some("pattern")
    } else {
        None
    }
}

/// The argument's text, or the placeholder.
fn arg_text<'a>(arg: Option<&'a str>, placeholder: &'a str) -> (r: &'a str)
    ensures
        r@ == arg_or(crate::evolution::opt_text(arg), placeholder@),
{
    match arg {
        Some(a) => a,
        None => placeholder,
    }
}

/// One-line summary of a tool call (see [`tool_summary_spec`]).
pub fn tool_summary(tool: &str, arg: Option<&str>) -> (s: String)
    ensures
        s@ == tool_summary_spec(tool@, crate::evolution::opt_text(arg)),
{
    let t = String::from_str(tool);
    let mut s = String::new();
    if named(&t, "bash") {
        push_str(&mut s, "$ ");
        push_str(&mut s, truncate(arg_text(arg, "..."), 80));
    } else if named(&t, "read_file") {
        push_str(&mut s, "read ");
        push_str(&mut s, arg_text(arg, "?"));
    } else if named(&t, "write_file") {
        push_str(&mut s, "write ");
        push_str(&mut s, arg_text(arg, "?"));
    } else if named(&t, "edit_file") {
        push_str(&mut s, "edit ");
        push_str(&mut s, arg_text(arg, "?"));
    } else if named(&t, "list_files") {
        push_str(&mut s, "ls ");
        push_str(&mut s, arg_text(arg, "."));
    } else if named(&t, "search") {
        push_str(&mut s, "search '");
        push_str(&mut s, truncate(arg_text(arg, "?"), 60));
        push_str(&mut s, "'");
    } else {
        push_str(&mut s, tool);
    }
    assert(s@ =~= tool_summary_spec(tool@, crate::evolution::opt_text(arg)));
    s
}

} // verus!
