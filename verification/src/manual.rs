//! The manual of the commands, made from their help texts.
//!
//! The help text of a command is turned into markdown line by line. Its
//! first line tells the version; a line that ends in a colon and does not
//! start with a space is a heading, and a heading without small letters
//! opens a section. Within the section of the subcommands a line that is
//! not indented far is the name of a subcommand; within the section of the
//! usage a line that starts with the name of the command is a usage line.

use vstd::prelude::*;
use vstd::string::*;
use crate::diffstat::{chars_of, trim_bounds, trimmed};
use crate::recommend::{has_prefix, starts_with};

verus! {

/// The section of a help text that a line stands in.
#[derive(Clone, Copy, Debug, PartialEq, Eq, Structural)]
pub struct Section {
    /// The line stands in the list of subcommands.
    pub subcommands: bool,
    /// The line stands among the usage lines.
    pub usage: bool,
}

/// A small letter of the alphabet.
pub open spec fn is_small(c: char) -> bool {
    0x61 <= c as u32 <= 0x7a
}

/// The text holds no small letter.
pub open spec fn no_small(s: Seq<char>) -> bool {
    forall|i: int| 0 <= i < s.len() ==> !is_small(#[trigger] s[i])
}

/// The heading that a line is: what stands before its last character,
/// where that is a colon and the line does not start with a space.
pub open spec fn heading_of(line: Seq<char>) -> Option<Seq<char>> {
    if line.len() > 0 && line.last() == ':' && line[0] != ' ' {
        Some(line.drop_last())
    } else {
        None
    }
}

/// What stands before the headings of a command: nothing for the program
/// as a whole, else the name by which the command is called.
pub open spec fn command_prefix(command: Seq<char>, full: bool) -> Seq<char> {
    if full {
        Seq::empty()
    } else {
        "cargo vet "@ + command + " "@
    }
}

/// The section that the lines after `line` stand in.
pub open spec fn next_section(section: Section, line: Seq<char>) -> Section {
    match heading_of(line) {
        Some(h) => if no_small(h) {
            Section { subcommands: h == "SUBCOMMANDS"@, usage: h == "USAGE"@ }
        } else {
            section
        },
        None => section,
    }
}

/// The markdown that a line of a help text becomes.
pub open spec fn line_text(section: Section, line: Seq<char>, command: Seq<char>, full: bool) -> Seq<
    char,
> {
    let t = trimmed(line);
    match heading_of(line) {
        Some(h) => if no_small(h) {
            "### "@ + command_prefix(command, full) + h + "\n"@
        } else {
            "### "@ + h + "\n"@
        },
        None => if section.subcommands && !starts_with(line, "     "@) {
            "* ["@ + t + "](#cargo-vet-"@ + t + "): "@
        } else if section.usage && starts_with(t, command) {
            "```\n"@ + (if full {
                t
            } else {
                "cargo vet "@ + t
            }) + "\n```\n"@
        } else if t.len() > 0 && (t[0] == '-' || t[0] == '<') {
            "#### `"@ + t + "`\n"@
        } else if t.len() > 0 && t[0] == '[' {
            "\\"@ + t + "  \n"@
        } else {
            t + "\n"@
        },
    }
}

/// The markdown that the first line of a help text becomes: for the
/// program as a whole its version, for a command its name as a heading.
pub open spec fn opening_text(first: Seq<char>, command: Seq<char>, full: bool) -> Seq<char> {
    if full {
        "Version: `"@ + first + "`\n\n"@
    } else {
        "<br><br><br>\n## "@ + command_prefix(command, false) + "\n"@
    }
}

/// Whether the first `end` characters hold no small letter.
fn check_no_small(chars: &Vec<char>, end: usize) -> (r: bool)
    requires
        end <= chars.len(),
    ensures
        r == no_small(chars@.subrange(0, end as int)),
{
    let ghost s = chars@.subrange(0, end as int);
    let mut i: usize = 0;
    while i < end
        invariant
            i <= end <= chars.len(),
            s == chars@.subrange(0, end as int),
            forall|k: int| 0 <= k < i ==> !is_small(#[trigger] s[k]),
        decreases end - i,
    {
        let u = chars[i] as u32;
        if 0x61 <= u && u <= 0x7a {
            assert(is_small(s[i as int]));
            return false;
        }
        i += 1;
    }
    true
}

/// Whether two texts are the same.
fn same_text(a: &str, b: &str) -> (r: bool)
    ensures
        r == (a@ == b@),
{
    if a.unicode_len() != b.unicode_len() {
        return false;
    }
    let r = has_prefix(a, b);
    proof {
        assert(a@.subrange(0, b@.len() as int) =~= a@);
    }
    r
}

/// Appends what stands before the headings of a command.
fn push_command_prefix(text: &mut String, command: &str, full: bool)
    ensures
        final(text)@ == old(text)@ + command_prefix(command@, full),
{
    if !full {
        text.append("cargo vet ");
        text.append(command);
        text.append(" ");
        assert(text@ =~= old(text)@ + ("cargo vet "@ + command@ + " "@));
    } else {
        assert(text@ =~= old(text)@ + Seq::<char>::empty());
    }
}

/// The markdown for the first line of the help text of a command.
pub fn manual_opening(first: &str, command: &str, full: bool) -> (r: String)
    ensures
        r@ == opening_text(first@, command@, full),
{
    if full {
        let mut out = String::from_str("Version: `");
        out.append(first);
        out.append("`\n\n");
        out
    } else {
        let mut out = String::from_str("<br><br><br>\n## ");
        push_command_prefix(&mut out, command, false);
        out.append("\n");
        out
    }
}

/// The markdown for a line of the help text of a command, after the
/// first. `section` is the section that the line stands in, and becomes
/// the one that the next line stands in.
pub fn manual_line(section: &mut Section, line: &str, command: &str, full: bool) -> (r: String)
    ensures
        r@ == line_text(*old(section), line@, command@, full),
        *final(section) == next_section(*old(section), line@),
{
    let chars = chars_of(line);
    let len = chars.len();
    if len > 0 && chars[len - 1] == ':' && chars[0] != ' ' {
        let heading = line.substring_char(0, len - 1);
        assert(heading@ =~= line@.drop_last());
        let mut out = String::from_str("### ");
        if check_no_small(&chars, len - 1) {
            section.subcommands = same_text(heading, "SUBCOMMANDS");
            section.usage = same_text(heading, "USAGE");
            push_command_prefix(&mut out, command, full);
        }
        out.append(heading);
        out.append("\n");
        return out;
    }
    let (from, to) = trim_bounds(&chars, 0, len);
    let t = line.substring_char(from, to);
    proof {
        assert(chars@.subrange(0, len as int) =~= line@);
        assert(t@ == trimmed(line@));
    }
    if section.subcommands && !has_prefix(line, "     ") {
        let mut out = String::from_str("* [");
        out.append(t);
        out.append("](#cargo-vet-");
        out.append(t);
        out.append("): ");
        out
    } else if section.usage && has_prefix(t, command) {
        let mut out = String::from_str("```\n");
        if !full {
            out.append("cargo vet ");
        }
        out.append(t);
        out.append("\n```\n");
        assert(out@ =~= "```\n"@ + (if full {
            t@
        } else {
            "cargo vet "@ + t@
        }) + "\n```\n"@);
        out
    } else if to > from && (chars[from] == '-' || chars[from] == '<') {
        let mut out = String::from_str("#### `");
        out.append(t);
        out.append("`\n");
        out
    } else if to > from && chars[from] == '[' {
        let mut out = String::from_str("\\");
        out.append(t);
        out.append("  \n");
        out
    } else {
        let mut out = String::from_str(t);
        out.append("\n");
        out
    }
}

} // verus!
