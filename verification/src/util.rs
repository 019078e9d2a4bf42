//! Substitution of shell-style variable references in path text. A raw path
//! may hold `$NAME` and `${NAME}` references; each is replaced by the value
//! found first in the supplied variable table, then (when the environment is
//! enabled) in the caller-provided environment table. The first reference
//! that neither table resolves fails the whole substitution, carrying the
//! name (see `lemma_fail_fast`). A `$` that heads no well-formed reference
//! is left untouched.
//!
//! Variable names are runs of ASCII word characters (letters, digits, the
//! underscore). This is a deliberate restriction: a reference whose name
//! would need a character outside ASCII is not recognised and its text is
//! left untouched rather than substituted.

use crate::strmap::AssocMap;
use vstd::prelude::*;

verus! {

/// A table of variable values, keyed by variable name.
pub type VarMap = AssocMap<String>;

/// Why path text could not be realised: a variable reference that no table
/// resolves, carrying the variable's name.
#[derive(Debug)]
pub enum ParsingVarError {
    NotFound(String),
}

/// Word characters are the ASCII letters, digits and the underscore; a
/// variable name is a nonempty run of them. Characters outside ASCII never
/// count as word characters here, so a name containing one ends at it.
pub open spec fn is_word_char(c: char) -> bool {
    ||| ('a' as u32) <= (c as u32) && (c as u32) <= ('z' as u32)
    ||| ('A' as u32) <= (c as u32) && (c as u32) <= ('Z' as u32)
    ||| ('0' as u32) <= (c as u32) && (c as u32) <= ('9' as u32)
    ||| c == '_'
}

/// The first position at or after `i` that ends the word-character run.
pub open spec fn word_end(s: Seq<char>, i: int) -> int
    decreases s.len() - i
        when 0 <= i <= s.len()
{
    if i == s.len() || !is_word_char(s[i]) {
        i
    } else {
        word_end(s, i + 1)
    }
}

pub proof fn lemma_word_end(s: Seq<char>, i: int)
    requires
        0 <= i <= s.len(),
    ensures
        i <= word_end(s, i) <= s.len(),
    decreases s.len() - i,
{
    if !(i == s.len() || !is_word_char(s[i])) {
        lemma_word_end(s, i + 1);
    }
}

/// Where a name's value comes from: the supplied table first, then the
/// environment table when its use is enabled.
pub open spec fn lookup_var(
    extra: Option<Map<Seq<char>, Seq<char>>>,
    use_env: bool,
    env: Map<Seq<char>, Seq<char>>,
    name: Seq<char>,
) -> Option<Seq<char>> {
    let from_env: Option<Seq<char>> = if use_env && env.dom().contains(name) {
        Some(env[name])
    } else {
        None
    };
    match extra {
        Some(m) => if m.dom().contains(name) {
            Some(m[name])
        } else {
            from_env
        },
        None => from_env,
    }
}

pub open spec fn prepend(pre: Seq<char>, r: Result<Seq<char>, Seq<char>>) -> Result<
    Seq<char>,
    Seq<char>,
> {
    match r {
        Ok(t) => Ok(pre + t),
        Err(e) => Err(e),
    }
}

/// The substituted suffix of `s` from position `i` on, or the name of the
/// first unresolved variable reference.
pub open spec fn subst_from(
    s: Seq<char>,
    i: int,
    extra: Option<Map<Seq<char>, Seq<char>>>,
    use_env: bool,
    env: Map<Seq<char>, Seq<char>>,
) -> Result<Seq<char>, Seq<char>>
    decreases s.len() - i
        when 0 <= i <= s.len()
{
    if i == s.len() {
        Ok(Seq::empty())
    } else if s[i] != '$' {
        prepend(seq![s[i]], subst_from(s, i + 1, extra, use_env, env))
    } else if i + 1 < s.len() && s[i + 1] == '{' {
        let k = word_end(s, i + 2);
        if k > i + 2 && k < s.len() && s[k] == '}' {
            let name = s.subrange(i + 2, k);
            match lookup_var(extra, use_env, env, name) {
                Some(v) => {
                    proof {
                        lemma_word_end(s, i + 2);
                    }
                    prepend(v, subst_from(s, k + 1, extra, use_env, env))
                },
                None => Err(name),
            }
        } else {
            prepend(seq!['$'], subst_from(s, i + 1, extra, use_env, env))
        }
    } else {
        let k = word_end(s, i + 1);
        if k > i + 1 {
            let name = s.subrange(i + 1, k);
            match lookup_var(extra, use_env, env, name) {
                Some(v) => {
                    proof {
                        lemma_word_end(s, i + 1);
                    }
                    prepend(v, subst_from(s, k, extra, use_env, env))
                },
                None => Err(name),
            }
        } else {
            prepend(seq!['$'], subst_from(s, i + 1, extra, use_env, env))
        }
    }
}

/// The whole text substituted, or the first unresolved name.
pub open spec fn subst(
    s: Seq<char>,
    extra: Option<Map<Seq<char>, Seq<char>>>,
    use_env: bool,
    env: Map<Seq<char>, Seq<char>>,
) -> Result<Seq<char>, Seq<char>> {
    subst_from(s, 0, extra, use_env, env)
}

/// The name of the first variable reference the scan meets that neither
/// table resolves, if any: the same left-to-right scan as `subst_from`, but
/// recording only where it would fail.
pub open spec fn first_unresolved(
    s: Seq<char>,
    i: int,
    extra: Option<Map<Seq<char>, Seq<char>>>,
    use_env: bool,
    env: Map<Seq<char>, Seq<char>>,
) -> Option<Seq<char>>
    decreases s.len() - i
        when 0 <= i <= s.len()
{
    if i == s.len() {
        None
    } else if s[i] != '$' {
        first_unresolved(s, i + 1, extra, use_env, env)
    } else if i + 1 < s.len() && s[i + 1] == '{' {
        let k = word_end(s, i + 2);
        if k > i + 2 && k < s.len() && s[k] == '}' {
            let name = s.subrange(i + 2, k);
            match lookup_var(extra, use_env, env, name) {
                Some(_) => {
                    proof {
                        lemma_word_end(s, i + 2);
                    }
                    first_unresolved(s, k + 1, extra, use_env, env)
                },
                None => Some(name),
            }
        } else {
            first_unresolved(s, i + 1, extra, use_env, env)
        }
    } else {
        let k = word_end(s, i + 1);
        if k > i + 1 {
            let name = s.subrange(i + 1, k);
            match lookup_var(extra, use_env, env, name) {
                Some(_) => {
                    proof {
                        lemma_word_end(s, i + 1);
                    }
                    first_unresolved(s, k, extra, use_env, env)
                },
                None => Some(name),
            }
        } else {
            first_unresolved(s, i + 1, extra, use_env, env)
        }
    }
}

proof fn lemma_fail_fast_from(
    s: Seq<char>,
    i: int,
    extra: Option<Map<Seq<char>, Seq<char>>>,
    use_env: bool,
    env: Map<Seq<char>, Seq<char>>,
)
    requires
        0 <= i <= s.len(),
    ensures
        match first_unresolved(s, i, extra, use_env, env) {
            Some(n) => subst_from(s, i, extra, use_env, env) == Err::<Seq<char>, Seq<char>>(n),
            None => subst_from(s, i, extra, use_env, env) is Ok,
        },
    decreases s.len() - i,
{
    if i == s.len() {
    } else if s[i] != '$' {
        lemma_fail_fast_from(s, i + 1, extra, use_env, env);
    } else if i + 1 < s.len() && s[i + 1] == '{' {
        let k = word_end(s, i + 2);
        lemma_word_end(s, i + 2);
        if k > i + 2 && k < s.len() && s[k] == '}' {
            match lookup_var(extra, use_env, env, s.subrange(i + 2, k)) {
                Some(_) => {
                    lemma_fail_fast_from(s, k + 1, extra, use_env, env);
                },
                None => {},
            }
        } else {
            lemma_fail_fast_from(s, i + 1, extra, use_env, env);
        }
    } else {
        let k = word_end(s, i + 1);
        lemma_word_end(s, i + 1);
        if k > i + 1 {
            match lookup_var(extra, use_env, env, s.subrange(i + 1, k)) {
                Some(_) => {
                    lemma_fail_fast_from(s, k, extra, use_env, env);
                },
                None => {},
            }
        } else {
            lemma_fail_fast_from(s, i + 1, extra, use_env, env);
        }
    }
}

/// Variable-resolution failure is fail-fast and names the culprit:
/// substitution fails exactly when the scan meets a reference that neither
/// table resolves, and the error carries the first such reference's name.
/// In particular, text holding a reference to an unknown variable (and no
/// earlier unresolved one) must fail, naming that variable.
pub proof fn lemma_fail_fast(
    s: Seq<char>,
    extra: Option<Map<Seq<char>, Seq<char>>>,
    use_env: bool,
    env: Map<Seq<char>, Seq<char>>,
)
    ensures
        match first_unresolved(s, 0, extra, use_env, env) {
            Some(n) => subst(s, extra, use_env, env) == Err::<Seq<char>, Seq<char>>(n),
            None => subst(s, extra, use_env, env) is Ok,
        },
{
    lemma_fail_fast_from(s, 0, extra, use_env, env);
}

pub open spec fn opt_map_view(m: Option<&VarMap>) -> Option<Map<Seq<char>, Seq<char>>> {
    match m {
        Some(m) => Some(m@),
        None => None,
    }
}

pub open spec fn varmaps_wf(extra: Option<&VarMap>, env: &VarMap) -> bool {
    &&& match extra {
        Some(m) => m.wf(),
        None => true,
    }
    &&& env.wf()
}

fn word_char(c: char) -> (r: bool)
    ensures
        r == is_word_char(c),
{
    let u = c as u32;
    (('a' as u32) <= u && u <= ('z' as u32)) || (('A' as u32) <= u && u <= ('Z' as u32)) || ((
    '0' as u32) <= u && u <= ('9' as u32)) || c == '_'
}

fn word_end_exec(text: &str, start: usize, n: usize) -> (r: usize)
    requires
        n == text@.len(),
        start <= n,
    ensures
        r == word_end(text@, start as int),
        start <= r <= n,
{
    let mut j = start;
    while j < n && word_char(text.get_char(j))
        invariant
            n == text@.len(),
            start <= j <= n,
            word_end(text@, start as int) == word_end(text@, j as int),
        decreases n - j,
    {
        j = j + 1;
    }
    j
}

fn lookup_exec(use_env: bool, extra: Option<&VarMap>, env: &VarMap, name: &String) -> (r: Option<
    String,
>)
    requires
        varmaps_wf(extra, env),
    ensures
        (match r {
            Some(v) => Some(v@),
            None => None::<Seq<char>>,
        }) == lookup_var(opt_map_view(extra), use_env, env@, name@),
{
    match extra {
        Some(m) => match m.get(name) {
            Some(v) => Some(v.clone()),
            None => if use_env {
                match env.get(name) {
                    Some(v) => Some(v.clone()),
                    None => None,
                }
            } else {
                None
            },
        },
        None => if use_env {
            match env.get(name) {
                Some(v) => Some(v.clone()),
                None => None,
            }
        } else {
            None
        },
    }
}

fn parse_from(use_env: bool, extra: Option<&VarMap>, env: &VarMap, text: &str, i: usize, n: usize)
    -> (r: Result<String, ParsingVarError>)
    requires
        varmaps_wf(extra, env),
        n == text@.len(),
        i <= n,
    ensures
        match r {
            Ok(out) => subst_from(text@, i as int, opt_map_view(extra), use_env, env@)
                == Ok::<Seq<char>, Seq<char>>(out@),
            Err(e) => match e {
                ParsingVarError::NotFound(name) => subst_from(
                    text@,
                    i as int,
                    opt_map_view(extra),
                    use_env,
                    env@,
                ) == Err::<Seq<char>, Seq<char>>(name@),
            },
        },
    decreases n - i,
{
    if i == n {
        return Ok(String::new());
    }
    let c = text.get_char(i);
    if c != '$' {
        match parse_from(use_env, extra, env, text, i + 1, n) {
            Err(e) => Err(e),
            Ok(rest) => {
                let head = text.substring_char(i, i + 1).to_owned();
                proof {
                    assert(text@.subrange(i as int, i + 1) =~= seq![text@[i as int]]);
                }
                Ok(head.concat(rest.as_str()))
            },
        }
    } else if i + 1 < n && text.get_char(i + 1) == '{' {
        let k = word_end_exec(text, i + 2, n);
        if k > i + 2 && k < n && text.get_char(k) == '}' {
            let name = text.substring_char(i + 2, k).to_owned();
            match lookup_exec(use_env, extra, env, &name) {
                Some(v) => match parse_from(use_env, extra, env, text, k + 1, n) {
                    Err(e) => Err(e),
                    Ok(rest) => Ok(v.concat(rest.as_str())),
                },
                None => Err(ParsingVarError::NotFound(name)),
            }
        } else {
            match parse_from(use_env, extra, env, text, i + 1, n) {
                Err(e) => Err(e),
                Ok(rest) => {
                    let head = text.substring_char(i, i + 1).to_owned();
                    proof {
                        assert(text@.subrange(i as int, i + 1) =~= seq![text@[i as int]]);
                        assert(seq![text@[i as int]] =~= seq!['$']);
                    }
                    Ok(head.concat(rest.as_str()))
                },
            }
        }
    } else {
        let k = word_end_exec(text, i + 1, n);
        if k > i + 1 {
            let name = text.substring_char(i + 1, k).to_owned();
            match lookup_exec(use_env, extra, env, &name) {
                Some(v) => match parse_from(use_env, extra, env, text, k, n) {
                    Err(e) => Err(e),
                    Ok(rest) => Ok(v.concat(rest.as_str())),
                },
                None => Err(ParsingVarError::NotFound(name)),
            }
        } else {
            match parse_from(use_env, extra, env, text, i + 1, n) {
                Err(e) => Err(e),
                Ok(rest) => {
                    let head = text.substring_char(i, i + 1).to_owned();
                    proof {
                        assert(text@.subrange(i as int, i + 1) =~= seq![text@[i as int]]);
                        assert(seq![text@[i as int]] =~= seq!['$']);
                    }
                    Ok(head.concat(rest.as_str()))
                },
            }
        }
    }
}

/// Substitute every variable reference in `text`, looking names up first in
/// `extra_map` and then, when `use_env` is set, in `env` (the caller's
/// snapshot of the process environment). Fails on the first name neither
/// table holds, naming it.
pub fn parse_vars(use_env: bool, extra_map: Option<&VarMap>, env: &VarMap, text: &str) -> (r:
    Result<String, ParsingVarError>)
    requires
        varmaps_wf(extra_map, env),
    ensures
        match r {
            Ok(out) => subst(text@, opt_map_view(extra_map), use_env, env@) == Ok::<
                Seq<char>,
                Seq<char>,
            >(out@),
            Err(e) => match e {
                ParsingVarError::NotFound(name) => subst(text@, opt_map_view(extra_map), use_env, env@)
                    == Err::<Seq<char>, Seq<char>>(name@),
            },
        },
{
    let n = text.unicode_len();
    parse_from(use_env, extra_map, env, text, 0, n)
}

} // verus!
