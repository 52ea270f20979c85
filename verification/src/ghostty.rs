//! The command string handed to Ghostty's embedding API. That API takes one
//! string, not an argument vector, so every argument is quoted on its own and
//! no profile field can become shell syntax.
use vstd::prelude::*;
use crate::preview::strings_view;
use crate::text::{chars_of, push_char};

verus! {

/// Whether `s` holds a NUL character, which no C string can carry.
pub open spec fn has_nul(s: Seq<char>) -> bool {
    exists|i: int| 0 <= i < s.len() && s[i] == '\0'
}

/// The characters of `s` with each `'` written as `'\''`.
pub open spec fn escaped(s: Seq<char>) -> Seq<char>
    decreases s.len(),
{
    if s.len() == 0 {
        Seq::empty()
    } else {
        escaped(s.drop_last()) + (if s.last() == '\'' {
            seq!['\'', '\\', '\'', '\'']
        } else {
            seq![s.last()]
        })
    }
}

/// `s` as one single-quoted shell word.
pub open spec fn quoted(s: Seq<char>) -> Seq<char> {
    seq!['\''] + escaped(s) + seq!['\'']
}

/// The words, each quoted on its own, joined by single spaces.
pub open spec fn quoted_join(words: Seq<Seq<char>>) -> Seq<char>
    decreases words.len(),
{
    if words.len() == 0 {
        Seq::empty()
    } else if words.len() == 1 {
        quoted(words[0])
    } else {
        quoted_join(words.drop_last()) + seq![' '] + quoted(words.last())
    }
}

/// Whether `word` holds a NUL character.
fn holds_nul(word: &str) -> (r: bool)
    ensures
        r == has_nul(word@),
{
    let cs = chars_of(word);
    let mut i: usize = 0;
    while i < cs.len()
        invariant
            i <= cs.len(),
            cs@ == word@,
            forall|k: int| 0 <= k < i ==> cs@[k] != '\0',
        decreases cs.len() - i,
    {
        if cs[i] == '\0' {
            return true;
        }
        i = i + 1;
    }
    false
}

/// Appends `word` as one single-quoted shell word.
fn push_quoted(out: &mut String, word: &str)
    ensures
        final(out)@ == old(out)@ + quoted(word@),
{
    let cs = chars_of(word);
    push_char(out, '\'');
    let mut i: usize = 0;
    while i < cs.len()
        invariant
            i <= cs.len(),
            cs@ == word@,
            out@ == old(out)@ + seq!['\''] + escaped(cs@.take(i as int)),
        decreases cs.len() - i,
    {
        let c = cs[i];
        if c == '\'' {
            push_char(out, '\'');
            push_char(out, '\\');
            push_char(out, '\'');
            push_char(out, '\'');
        } else {
            push_char(out, c);
        }
        assert(cs@.take(i + 1).drop_last() == cs@.take(i as int));
        i = i + 1;
    }
    assert(cs@.take(cs.len() as int) == cs@);
    push_char(out, '\'');
}

/// The command line for Ghostty: `shell` and then each of `args`, each in
/// single quotes with every `'` inside written as `'\''`, joined by single
/// spaces. `None` where any of them holds a NUL character, which the C
/// string handed to Ghostty cannot carry.
pub fn command_line(shell: &str, args: &Vec<String>) -> (r: Option<String>)
    ensures
        r is None <==> (has_nul(shell@) || exists|i: int|
            0 <= i < args.len() && has_nul(#[trigger] args@[i]@)),
        r matches Some(s) ==> s@ == quoted_join(seq![shell@] + strings_view(args@)),
{
    let ghost words = seq![shell@] + strings_view(args@);
    if holds_nul(shell) {
        return None;
    }
    let mut out = String::new();
    push_quoted(&mut out, shell);
    assert(words.take(1) == seq![shell@]);
    assert(out@ == quoted_join(words.take(1)));
    let mut i: usize = 0;
    while i < args.len()
        invariant
            i <= args.len(),
            words == seq![shell@] + strings_view(args@),
            !has_nul(shell@),
            forall|k: int| 0 <= k < i ==> !has_nul(#[trigger] args@[k]@),
            out@ == quoted_join(words.take(i + 1)),
        decreases args.len() - i,
    {
        let arg = args[i].as_str();
        if holds_nul(arg) {
            return None;
        }
        push_char(&mut out, ' ');
        push_quoted(&mut out, arg);
        assert(words.take(i + 2).drop_last() == words.take(i + 1));
        assert(words.take(i + 2).last() == args@[i as int]@);
        i = i + 1;
    }
    assert(words.take(args.len() + 1) == words);
    Some(out)
}

} // verus!
