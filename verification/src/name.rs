//! Rules for instance and env names.
use vstd::prelude::*;
use crate::text::{push_str, str_chars};

verus! {

/// `[A-Za-z0-9_-]`.
pub open spec fn allowed_name_char(c: char) -> bool {
    let v = c as u32;
    (48 <= v <= 57) || (65 <= v <= 90) || (97 <= v <= 122) || c == '_' || c == '-'
}

/// A runtime name is non-empty and made only of allowed characters.
pub open spec fn valid_runtime_name(name: Seq<char>) -> bool {
    name.len() > 0 && forall|i: int| 0 <= i < name.len() ==> allowed_name_char(#[trigger] name[i])
}

/// The message that rejects `name` as a name of the given kind.
pub open spec fn invalid_name_message(kind: Seq<char>, name: Seq<char>) -> Seq<char> {
    "invalid "@ + kind + " name '"@ + name + "': expected [A-Za-z0-9_-]+"@
}

pub fn is_allowed_name_char(ch: char) -> (r: bool)
    ensures
        r == allowed_name_char(ch),
{
    let v = ch as u32;
    (48 <= v && v <= 57) || (65 <= v && v <= 90) || (97 <= v && v <= 122) || ch == '_' || ch == '-'
}

pub fn validate_runtime_name(name: &str, kind: &str) -> (r: Result<(), String>)
    ensures
        r is Ok <==> valid_runtime_name(name@),
        r matches Err(m) ==> m@ == invalid_name_message(kind@, name@),
{
    let cs = str_chars(name);
    let mut ok = cs.len() > 0;
    let mut i: usize = 0;
    while i < cs.len()
        invariant
            cs@ == name@,
            i <= cs.len(),
            ok == (cs.len() > 0 && forall|j: int| 0 <= j < i ==> allowed_name_char(#[trigger] cs@[j])),
        decreases cs.len() - i,
    {
        if !is_allowed_name_char(cs[i]) {
            ok = false;
        }
        i = i + 1;
    }
    if ok {
        Ok(())
    } else {
        let mut m = String::new();
        push_str(&mut m, "invalid ");
        push_str(&mut m, kind);
        push_str(&mut m, " name '");
        push_str(&mut m, name);
        push_str(&mut m, "': expected [A-Za-z0-9_-]+");
        assert(m@ =~= invalid_name_message(kind@, name@));
        Err(m)
    }
}

pub fn validate_instance_name(name: &str) -> (r: Result<(), String>)
    ensures
        r is Ok <==> valid_runtime_name(name@),
        r matches Err(m) ==> m@ == invalid_name_message("instance"@, name@),
{
    validate_runtime_name(name, "instance")
}

pub fn validate_env_name(name: &str) -> (r: Result<(), String>)
    ensures
        r is Ok <==> valid_runtime_name(name@),
        r matches Err(m) ==> m@ == invalid_name_message("env"@, name@),
{
    validate_runtime_name(name, "env")
}

/// A valid name is a non-empty run of ASCII letters, digits, '_' and '-';
/// so it never holds a path separator, a '.', a ':' or whitespace, and any
/// such run is valid.
pub proof fn lemma_valid_names(name: Seq<char>, c: char)
    ensures
        allowed_name_char(c) <==> ('a' <= c <= 'z' || 'A' <= c <= 'Z' || '0' <= c <= '9' || c == '_' || c == '-'),
        valid_runtime_name(name) && name.contains(c) ==> c != '/' && c != '\\' && c != '.' && c != ':' && c != ' ',
{
    if valid_runtime_name(name) && name.contains(c) {
        let i = choose|i: int| 0 <= i < name.len() && name[i] == c;
        assert(allowed_name_char(name[i]));
    }
}

} // verus!
