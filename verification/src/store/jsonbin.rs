//! The JSONBin.io store: header values with environment variables.
//!
//! Header values may reference environment variables as `$NAME` or
//! `${NAME}`; they are expanded at request time so that secrets stay out of
//! the configuration file. Unset variables are left as written, and every
//! other character of the value is kept as it is.
use vstd::prelude::*;

use crate::text::{chars_of, push_str, string_of_chars};

verus! {

/// `true` for the characters of a `$NAME` variable name: ASCII letters,
/// digits and `_`.
pub open spec fn is_name_char(c: char) -> bool {
    ('0' <= c <= '9') || ('A' <= c <= 'Z') || ('a' <= c <= 'z') || c == '_'
}

/// The end of the run of name characters starting at `j`.
pub open spec fn name_end(s: Seq<char>, j: int) -> int
    decreases s.len() - j,
{
    if 0 <= j < s.len() && is_name_char(s[j]) {
        name_end(s, j + 1)
    } else {
        j
    }
}

/// The index of the first `}` at or after `j`.
pub open spec fn close_brace(s: Seq<char>, j: int) -> Option<int>
    decreases s.len() - j,
{
    if j < 0 || j >= s.len() {
        None
    } else if s[j] == '}' {
        Some(j)
    } else {
        close_brace(s, j + 1)
    }
}

/// A run of name characters ends at or after its start, inside `s`.
pub proof fn lemma_name_end_ge(s: Seq<char>, j: int)
    ensures
        name_end(s, j) >= j,
        0 <= j <= s.len() ==> name_end(s, j) <= s.len(),
    decreases s.len() - j,
{
    if 0 <= j < s.len() && is_name_char(s[j]) {
        lemma_name_end_ge(s, j + 1);
    }
}

/// The first `}` at or after `j` lies at or after `j`, inside `s`.
pub proof fn lemma_close_brace_ge(s: Seq<char>, j: int)
    ensures
        close_brace(s, j) matches Some(p) ==> j <= p < s.len() && s[p] == '}',
    decreases s.len() - j,
{
    if 0 <= j < s.len() && s[j] != '}' {
        lemma_close_brace_ge(s, j + 1);
    }
}

/// The value of the first variable named `name`.
pub open spec fn lookup(env: Seq<(String, String)>, name: Seq<char>) -> Option<Seq<char>>
    decreases env.len(),
{
    if env.len() == 0 {
        None
    } else if env[0].0@ == name {
        Some(env[0].1@)
    } else {
        lookup(env.drop_first(), name)
    }
}

/// The expansion of `s` from `i` on, in the environment `env`: `${NAME}`
/// (up to the first `}`) and `$NAME` (a run of ASCII letters, digits and
/// `_`) become the variable's value, or stay as written when the variable
/// is unset; every other character is kept.
pub open spec fn expand_from(s: Seq<char>, env: Seq<(String, String)>, i: int) -> Seq<char>
    decreases s.len() - i,
{
    if i < 0 || i >= s.len() {
        Seq::empty()
    } else if s[i] == '$' && i + 1 < s.len() && s[i + 1] == '{' && close_brace(s, i + 2) is Some {
        let p = close_brace(s, i + 2)->0;
        proof {
            lemma_close_brace_ge(s, i + 2);
        }
        let name = s.subrange(i + 2, p);
        (match lookup(env, name) {
            Some(v) => v,
            None => s.subrange(i, p + 1),
        }) + expand_from(s, env, p + 1)
    } else if s[i] == '$' && i + 1 < s.len() && name_end(s, i + 1) > i + 1 {
        let e = name_end(s, i + 1);
        proof {
            lemma_name_end_ge(s, i + 1);
        }
        let name = s.subrange(i + 1, e);
        (match lookup(env, name) {
            Some(v) => v,
            None => s.subrange(i, e),
        }) + expand_from(s, env, e)
    } else {
        seq![s[i]] + expand_from(s, env, i + 1)
    }
}

/// The expansion of `input` in the environment `env` (see [`expand_from`]).
pub open spec fn expanded(input: Seq<char>, env: Seq<(String, String)>) -> Seq<char> {
    expand_from(input, env, 0)
}

fn lookup_exec(env: &Vec<(String, String)>, name: &String) -> (r: Option<String>)
    ensures
        crate::text::opt_string_view(r) == lookup(env@, name@),
{
    let mut i: usize = 0;
    assert(env@.skip(0) =~= env@);
    while i < env.len()
        invariant
            i <= env@.len(),
            lookup(env@, name@) == lookup(env@.skip(i as int), name@),
        decreases env.len() - i,
    {
        assert(env@.skip(i as int)[0] == env@[i as int]);
        assert(env@.skip(i as int).drop_first() =~= env@.skip(i + 1));
        if env[i].0 == *name {
            return Some(env[i].1.clone());
        }
        i = i + 1;
    }
    None
}

fn is_name_char_exec(c: char) -> (r: bool)
    ensures
        r == is_name_char(c),
{
    ('0' <= c && c <= '9') || ('A' <= c && c <= 'Z') || ('a' <= c && c <= 'z') || c == '_'
}

/// Expand `$NAME` and `${NAME}` in `input` from `env`, the environment as
/// name/value pairs (the first pair of a name counts); see [`expanded`].
pub fn expand_env(input: &str, env: &Vec<(String, String)>) -> (out: String)
    ensures
        out@ == expanded(input@, env@),
{
    let cs = chars_of(input);
    let n = cs.len();
    let mut out = String::new();
    let mut i: usize = 0;
    while i < n
        invariant
            cs@ == input@,
            n == cs@.len(),
            i <= n,
            out@ + expand_from(cs@, env@, i as int) == expanded(input@, env@),
        decreases n - i,
    {
        let ghost rest = expand_from(cs@, env@, i as int);
        let ghost before = out@;
        if cs[i] == '$' && i + 1 < n {
            if cs[i + 1] == '{' {
                let mut p = i + 2;
                while p < n && cs[p] != '}'
                    invariant
                        i + 2 <= p <= n,
                        n == cs@.len(),
                        close_brace(cs@, i + 2) == close_brace(cs@, p as int),
                    decreases n - p,
                {
                    p = p + 1;
                }
                if p < n {
                    let name = string_of_chars(&cs, i + 2, p);
                    match lookup_exec(env, &name) {
                        Some(v) => push_str(&mut out, v.as_str()),
                        None => {
                            let written = string_of_chars(&cs, i, p + 1);
                            push_str(&mut out, written.as_str());
                        },
                    }
                    proof {
                        assert(out@ + expand_from(cs@, env@, p + 1) =~= before + rest);
                    }
                    i = p + 1;
                    continue;
                }
            }
            let start = i + 1;
            let mut end = start;
            while end < n && is_name_char_exec(cs[end])
                invariant
                    start <= end <= n,
                    n == cs@.len(),
                    name_end(cs@, start as int) == name_end(cs@, end as int),
                decreases n - end,
            {
                end = end + 1;
            }
            if end > start {
                let name = string_of_chars(&cs, start, end);
                match lookup_exec(env, &name) {
                    Some(v) => push_str(&mut out, v.as_str()),
                    None => {
                        let written = string_of_chars(&cs, i, end);
                        push_str(&mut out, written.as_str());
                    },
                }
                proof {
                    assert(out@ + expand_from(cs@, env@, end as int) =~= before + rest);
                }
                i = end;
                continue;
            }
        }
        out.push(cs[i]);
        proof {
            assert(out@ + expand_from(cs@, env@, i + 1) =~= before + rest);
        }
        i = i + 1;
    }
    assert(out@ =~= expanded(input@, env@));
    out
}

proof fn lemma_plain_tail(input: Seq<char>, env: Seq<(String, String)>, i: int)
    requires
        forall|j: int| 0 <= j < input.len() ==> input[j] != '$',
        0 <= i <= input.len(),
    ensures
        expand_from(input, env, i) == input.subrange(i, input.len() as int),
    decreases input.len() - i,
{
    if i < input.len() {
        lemma_plain_tail(input, env, i + 1);
        assert(input.subrange(i, input.len() as int) =~= seq![input[i]] + input.subrange(
            i + 1,
            input.len() as int,
        ));
    } else {
        assert(input.subrange(i, input.len() as int) =~= Seq::<char>::empty());
    }
}

/// Header values without variables pass through unchanged: a value holding
/// no `$` expands to itself, whatever its characters and the environment.
pub proof fn law_expand_without_dollar_is_identity(input: Seq<char>, env: Seq<(String, String)>)
    requires
        forall|j: int| 0 <= j < input.len() ==> input[j] != '$',
    ensures
        expanded(input, env) == input,
{
    lemma_plain_tail(input, env, 0);
    assert(input.subrange(0, input.len() as int) =~= input);
}

} // verus!
