//! The commands whose output is worth compressing, and those that read files.
use vstd::prelude::*;

use crate::text;

verus! {

/// The names of the commands that are run through the binary.
pub open spec fn is_rewritable_name(name: Seq<char>) -> bool {
    ||| name == "git"@
    ||| name == "gh"@
    ||| name == "cargo"@
    ||| name == "npm"@
    ||| name == "curl"@
    ||| name == "find"@
    ||| name == "rg"@
    ||| name == "ls"@
}

/// Whether a command runs one of the rewritable commands.
pub open spec fn is_rewritable_spec(cmd: Seq<char>) -> bool {
    is_rewritable_name(text::first_word(cmd))
}

/// Whether a character joins commands or redirects them.
pub open spec fn is_shell_control(c: char) -> bool {
    c == '|' || c == '&' || c == ';' || c == '<' || c == '>'
}

/// Whether a command does nothing but print a file or a part of it.
pub open spec fn is_file_read_spec(cmd: Seq<char>) -> bool {
    let name = text::first_word(cmd);
    &&& name == "cat"@ || name == "head"@ || name == "tail"@
    &&& forall|i: int| 0 <= i < cmd.len() ==> !is_shell_control(#[trigger] cmd[i])
}

/// Whether a command runs one of the rewritable commands.
pub fn is_rewritable_command(cmd: &str) -> (r: bool)
    ensures
        r == is_rewritable_spec(cmd@),
{
    let chars = text::chars_of(cmd);
    let name = text::leading_token(chars.as_slice());
    text::spells(name, "git") || text::spells(name, "gh") || text::spells(name, "cargo")
        || text::spells(name, "npm") || text::spells(name, "curl") || text::spells(name, "find")
        || text::spells(name, "rg") || text::spells(name, "ls")
}

/// Whether a command does nothing but print a file or a part of it.
pub fn is_file_read_command(cmd: &str) -> (r: bool)
    ensures
        r == is_file_read_spec(cmd@),
{
    let chars = text::chars_of(cmd);
    let name = text::leading_token(chars.as_slice());
    if !(text::spells(name, "cat") || text::spells(name, "head") || text::spells(name, "tail")) {
        return false;
    }
    let mut i: usize = 0;
    while i < chars.len()
        invariant
            i <= chars.len(),
            chars@ == cmd@,
            forall|j: int| 0 <= j < i ==> !is_shell_control(#[trigger] cmd@[j]),
        decreases chars.len() - i,
    {
        let c = chars[i];
        if c == '|' || c == '&' || c == ';' || c == '<' || c == '>' {
            proof {
                assert(is_shell_control(cmd@[i as int]));
            }
            return false;
        }
        i += 1;
    }
    true
}

/// Which commands are run through the binary, and which only print a file: by the first
/// word, whatever follows; and for the latter, where no character joins commands or
/// redirects them.
pub proof fn law_registry(gap: Seq<char>, word: Seq<char>, rest: Seq<char>)
    requires
        text::is_blank(gap),
        text::is_word(word),
        rest.len() > 0 ==> text::is_space(rest[0]),
    ensures
        is_rewritable_spec(gap + word + rest) <==> word == "git"@ || word == "gh"@ || word
            == "cargo"@ || word == "npm"@ || word == "curl"@ || word == "find"@ || word == "rg"@
            || word == "ls"@,
        ({
            let cmd = gap + word + rest;
            is_file_read_spec(cmd) <==> (word == "cat"@ || word == "head"@ || word == "tail"@)
                && !cmd.contains('|') && !cmd.contains('&') && !cmd.contains(';') && !cmd.contains(
                '<',
            ) && !cmd.contains('>')
        }),
{
    let cmd = gap + word + rest;
    text::law_words(gap, word, rest);
    if is_file_read_spec(cmd) {
        assert forall|i: int| 0 <= i < cmd.len() implies cmd[i] != '|' && cmd[i] != '&' && cmd[i]
            != ';' && cmd[i] != '<' && cmd[i] != '>' by {
            assert(!is_shell_control(cmd[i]));
        }
    }
    if !cmd.contains('|') && !cmd.contains('&') && !cmd.contains(';') && !cmd.contains('<')
        && !cmd.contains('>') {
        assert forall|i: int| 0 <= i < cmd.len() implies !is_shell_control(#[trigger] cmd[i]) by {
            assert(cmd.contains(cmd[i]));
        }
    }
}

} // verus!
