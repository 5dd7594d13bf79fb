//! Which file names a sender may choose.

use crate::text;
use crate::text::{string_of, trim};
use vstd::prelude::*;
use vstd::string::*;
use vstd::utf8::*;

verus! {

/// Longest file name, in bytes.
pub const MAX_FILENAME_BYTES: usize = 255;

/// Whether two dots stand next to each other in `s`.
pub open spec fn has_double_dot(s: Seq<char>) -> bool {
    exists|i: int| 0 <= i < s.len() - 1 && #[trigger] s[i] == '.' && s[i + 1] == '.'
}

/// What is wrong with the name `s`, of which the white space was trimmed. The
/// first of these: nothing is left of it, or it has two dots in a row; it has a
/// path separator; it has a null character; it is too long; it stands for the
/// directory itself.
pub open spec fn complaint(s: Seq<char>) -> Option<Seq<char>> {
    if s.len() == 0 || has_double_dot(s) {
        Some("invalid filename"@)
    } else if s.contains('/') || s.contains('\\') {
        Some("path separator not allowed"@)
    } else if s.contains('\0') {
        Some("null byte not allowed"@)
    } else if encode_utf8(s).len() > MAX_FILENAME_BYTES {
        Some("filename too long"@)
    } else if s == seq!['.'] {
        Some("invalid filename"@)
    } else {
        None
    }
}

/// Whether `c` is among the characters.
fn contains(chars: &Vec<char>, c: char) -> (r: bool)
    ensures
        r == chars@.contains(c),
{
    let mut i: usize = 0;
    while i < chars.len()
        invariant
            i <= chars@.len(),
            forall|k: int| 0 <= k < i ==> chars@[k] != c,
        decreases chars@.len() - i,
    {
        if chars[i] == c {
            assert(chars@[i as int] == c);
            return true;
        }
        i = i + 1;
    }
    false
}

/// Whether two dots stand next to each other.
fn contains_double_dot(chars: &Vec<char>) -> (r: bool)
    ensures
        r == has_double_dot(chars@),
{
    let mut i: usize = 1;
    while i < chars.len()
        invariant
            1 <= i,
            forall|k: int|
                0 <= k < i - 1 && k < chars@.len() - 1 ==> !(#[trigger] chars@[k] == '.' && chars@[k
                    + 1] == '.'),
        decreases chars@.len() - i,
    {
        if chars[i - 1] == '.' && chars[i] == '.' {
            assert(chars@[i - 1] == '.' && chars@[(i - 1) + 1] == '.');
            return true;
        }
        i = i + 1;
    }
    false
}

/// The name to use for the file that the sender calls `input`: without white
/// space around it, and only where it names a file in the current directory.
pub fn sanitize_filename(input: &str) -> (r: Result<String, &'static str>)
    ensures
        match complaint(text::trimmed(input@)) {
            None => r is Ok && r->Ok_0@ == text::trimmed(input@),
            Some(why) => r is Err && r->Err_0@ == why,
        },
        ({
            let name = text::trimmed(input@);
            let dots = exists|i: int|
                0 <= i < name.len() - 1 && #[trigger] name[i] == '.' && name[i + 1] == '.';
            let parted = exists|i: int|
                0 <= i < name.len() && (#[trigger] name[i] == '/' || name[i] == '\\');
            let has_null = exists|i: int| 0 <= i < name.len() && #[trigger] name[i] == '\0';
            let long = encode_utf8(name).len() > 255;
            let dot = name.len() == 1 && name[0] == '.';
            &&& r is Ok <==> name.len() > 0 && !dots && !parted && !has_null && !long && !dot
            &&& r is Ok ==> r->Ok_0@ == name
            &&& name.len() == 0 || dots ==> r->Err_0@ == "invalid filename"@
            &&& name.len() > 0 && !dots && parted ==> r->Err_0@ == "path separator not allowed"@
            &&& name.len() > 0 && !dots && !parted && has_null ==> r->Err_0@
                == "null byte not allowed"@
            &&& name.len() > 0 && !dots && !parted && !has_null && long ==> r->Err_0@
                == "filename too long"@
            &&& dot && !long ==> r->Err_0@ == "invalid filename"@
        }),
{
    proof {
        lemma_safe_names_are_accepted(text::trimmed(input@));
    }
    let chars = trim(input);
    let name = string_of(&chars, 0, chars.len());
    assert(name@ =~= chars@);
    if chars.len() == 0 || contains_double_dot(&chars) {
        return Err("invalid filename");
    }
    if contains(&chars, '/') || contains(&chars, '\\') {
        return Err("path separator not allowed");
    }
    if contains(&chars, '\0') {
        return Err("null byte not allowed");
    }
    if name.as_str().as_bytes().len() > MAX_FILENAME_BYTES {
        return Err("filename too long");
    }
    if chars.len() == 1 && chars[0] == '.' {
        assert(chars@ =~= seq!['.']);
        return Err("invalid filename");
    }
    Ok(name)
}

/// An accepted name cannot lead out of the directory: it has no separator and no
/// parent reference, is not empty, is not the directory itself, has no null
/// character, and is short enough for a file system. Accepting it again changes
/// nothing.
pub proof fn lemma_accepted_name_stays_inside(input: Seq<char>)
    requires
        complaint(text::trimmed(input)) is None,
    ensures
        ({
            let name = text::trimmed(input);
            &&& name.len() > 0
            &&& !name.contains('/')
            &&& !name.contains('\\')
            &&& !name.contains('\0')
            &&& !has_double_dot(name)
            &&& name != seq!['.']
            &&& name != seq!['.', '.']
            &&& encode_utf8(name).len() <= MAX_FILENAME_BYTES
            &&& text::trimmed(name) == name
            &&& complaint(text::trimmed(name)) is None
        }),
{
    let name = text::trimmed(input);
    lemma_trimmed_is_trimmed(input);
    if name == seq!['.', '.'] {
        let i: int = 0;
        assert(name[i] == '.' && name[i + 1] == '.');
    }
}

/// Every safe name is accepted: one that is not empty, is not a single dot, has no
/// two dots in a row, no path separator, no null character and at most 255 bytes.
/// Nothing else about it matters. What is not safe is refused.
pub proof fn lemma_safe_names_are_accepted(name: Seq<char>)
    ensures
        ({
            let dots = exists|i: int|
                0 <= i < name.len() - 1 && #[trigger] name[i] == '.' && name[i + 1] == '.';
            let parted = exists|i: int|
                0 <= i < name.len() && (#[trigger] name[i] == '/' || name[i] == '\\');
            let has_null = exists|i: int| 0 <= i < name.len() && #[trigger] name[i] == '\0';
            let long = encode_utf8(name).len() > 255;
            let dot = name.len() == 1 && name[0] == '.';
            &&& complaint(name) is None <==> name.len() > 0 && !dots && !parted && !has_null
                && !long && !dot
            &&& name.len() == 0 || dots ==> complaint(name) == Some("invalid filename"@)
            &&& name.len() > 0 && !dots && parted ==> complaint(name) == Some(
                "path separator not allowed"@,
            )
            &&& name.len() > 0 && !dots && !parted && has_null ==> complaint(name) == Some(
                "null byte not allowed"@,
            )
            &&& name.len() > 0 && !dots && !parted && !has_null && long ==> complaint(name)
                == Some("filename too long"@)
            &&& dot && !long ==> complaint(name) == Some("invalid filename"@)
        }),
{
    if name.len() == 1 && name[0] == '.' {
        assert(name =~= seq!['.']);
    }
    assert(name.contains('/') ==> exists|i: int|
        0 <= i < name.len() && (#[trigger] name[i] == '/' || name[i] == '\\'));
    assert(name.contains('\\') ==> exists|i: int|
        0 <= i < name.len() && (#[trigger] name[i] == '/' || name[i] == '\\'));
    if exists|i: int| 0 <= i < name.len() && (#[trigger] name[i] == '/' || name[i] == '\\') {
        let i = choose|i: int|
            0 <= i < name.len() && (#[trigger] name[i] == '/' || name[i] == '\\');
        assert(name.contains(name[i]));
    }
}

/// What was trimmed has no white space at its end.
proof fn lemma_end_is_trimmed(s: Seq<char>)
    ensures
        text::trimmed_end(s).len() <= s.len(),
        text::trimmed_end(s) == s.take(text::trimmed_end(s).len() as int),
        text::trimmed_end(s).len() > 0 ==> !text::is_space(text::trimmed_end(s).last()),
    decreases s.len(),
{
    if s.len() > 0 && text::is_space(s.last()) {
        lemma_end_is_trimmed(s.drop_last());
        assert(text::trimmed_end(s) =~= s.take(text::trimmed_end(s).len() as int));
    } else {
        assert(s.take(s.len() as int) =~= s);
    }
}

/// What was trimmed has no white space at its start.
proof fn lemma_start_is_trimmed(s: Seq<char>)
    ensures
        text::trimmed_start(s).len() > 0 ==> !text::is_space(text::trimmed_start(s)[0]),
    decreases s.len(),
{
    if s.len() > 0 && text::is_space(s[0]) {
        lemma_start_is_trimmed(s.skip(1));
    }
}

/// Trimming twice changes nothing more.
proof fn lemma_trimmed_is_trimmed(s: Seq<char>)
    ensures
        text::trimmed(text::trimmed(s)) == text::trimmed(s),
{
    lemma_start_is_trimmed(s);
    lemma_end_is_trimmed(text::trimmed_start(s));
}

} // verus!
