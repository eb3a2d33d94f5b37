//! Placeholder substitution for configured paths: `$[VAR]` environment
//! expansion with an optional `:fallback`, `$(NAME)` well-known-directory
//! variables, and `~` for the home directory. The environment is handed in
//! as a snapshot, so the computation itself is checked.

use vstd::prelude::*;

use crate::environment::{Env, HomeDirError};
use crate::strutil::{chars_to_string, str_to_chars};

verus! {

/// Why a placeholder could not be resolved.
#[derive(Clone, Debug, PartialEq, Eq)]
pub enum EnvVarError {
    NotPresent,
    NotUnicode,
}

/// A failure while canonicalizing a configured path.
#[derive(Clone, Debug, PartialEq, Eq)]
pub enum Error {
    /// A placeholder opening has no closing bracket, or holds more than one
    /// fallback separator.
    Illformed,
    EnvVar { name: String, err: EnvVarError },
    UnkownVariable,
    UnknownHomeDir,
    InvalidHomeDir,
    IncludeFileNotFound,
    MultipleMatchingIncludeFiles { files: Vec<String> },
    RelativePath,
}

/// Only the errors a placeholder expression itself can produce.
pub open spec fn expr_error(e: Error) -> bool {
    match e {
        Error::Illformed => true,
        Error::EnvVar { name, err } => true,
        Error::UnkownVariable => true,
        _ => false,
    }
}

/// Only the errors a plain substitution can produce.
pub open spec fn substitution_error(e: Error) -> bool {
    match e {
        Error::Illformed => true,
        Error::EnvVar { name, err } => true,
        Error::UnkownVariable => true,
        Error::UnknownHomeDir => true,
        Error::InvalidHomeDir => true,
        _ => false,
    }
}

/// Copies the character range `[from, to)`.
fn subvec(s: &Vec<char>, from: usize, to: usize) -> (r: Vec<char>)
    requires
        from <= to <= s@.len(),
    ensures
        r@ == s@.subrange(from as int, to as int),
{
    let mut r: Vec<char> = Vec::new();
    let mut i = from;
    while i < to
        invariant
            from <= i <= to <= s@.len(),
            r@ == s@.subrange(from as int, i as int),
        decreases to - i,
    {
        r.push(s[i]);
        proof {
            assert(s@.subrange(from as int, i as int).push(s@[i as int]) =~= s@.subrange(
                from as int,
                i as int + 1,
            ));
        }
        i = i + 1;
    }
    r
}

/// Replaces the character range `[start, end_excl)` with `mid`.
fn splice(s: &Vec<char>, start: usize, end_excl: usize, mid: &Vec<char>) -> (r: Vec<char>)
    requires
        start <= end_excl <= s@.len(),
    ensures
        r@ == s@.take(start as int) + mid@ + s@.skip(end_excl as int),
        r@.len() == s@.len() - (end_excl - start) + mid@.len(),
{
    let mut r = subvec(s, 0, start);
    let mut i: usize = 0;
    let m = mid.len();
    while i < m
        invariant
            i <= m,
            m == mid@.len(),
            r@ == s@.take(start as int) + mid@.take(i as int),
        decreases m - i,
    {
        r.push(mid[i]);
        proof {
            assert(s@.take(start as int) + mid@.take(i as int + 1) =~= (s@.take(start as int)
                + mid@.take(i as int)).push(mid@[i as int]));
        }
        i = i + 1;
    }
    proof {
        assert(mid@.take(m as int) =~= mid@);
    }
    let n = s.len();
    let mut j = end_excl;
    while j < n
        invariant
            end_excl <= j <= n,
            n == s@.len(),
            r@ == s@.take(start as int) + mid@ + s@.subrange(end_excl as int, j as int),
        decreases n - j,
    {
        r.push(s[j]);
        proof {
            assert(s@.take(start as int) + mid@ + s@.subrange(end_excl as int, j as int + 1) =~= (
            s@.take(start as int) + mid@ + s@.subrange(end_excl as int, j as int)).push(
                s@[j as int],
            ));
        }
        j = j + 1;
    }
    proof {
        assert(s@.take(start as int) + mid@ + s@.subrange(end_excl as int, end_excl as int) =~= s@.take(
            start as int,
        ) + mid@);
        assert(r@ =~= s@.take(start as int) + mid@ + s@.skip(end_excl as int));
    }
    r
}

/// A placeholder opens at position `j`: a `$` followed by `[` or `(`.
pub open spec fn opening_at(s: Seq<char>, j: int) -> bool {
    0 <= j && j + 1 < s.len() && s[j] == '$' && (s[j + 1] == '[' || s[j + 1] == '(')
}

/// The string holds no placeholder opening and no `~`: substitution leaves
/// it untouched.
pub open spec fn placeholder_free(s: Seq<char>) -> bool {
    (forall|j: int| !opening_at(s, j)) && (forall|j: int| 0 <= j < s.len() ==> s[j] != '~')
}

/// A substitution failure, abstractly: the same cases as `Error`'s
/// substitution family, with the variable name as a character sequence.
pub enum SpecSubstError {
    Illformed,
    EnvVarNotPresent(Seq<char>),
    EnvVarNotUnicode(Seq<char>),
    UnknownVariable,
    HomeUnknown,
    HomeInvalid,
}

/// The error value owed for an abstract substitution failure.
pub open spec fn err_corresponds(e: Error, se: SpecSubstError) -> bool {
    match se {
        SpecSubstError::Illformed => e == Error::Illformed,
        SpecSubstError::EnvVarNotPresent(n) => e matches Error::EnvVar { name, err } && name@
            == n && err == EnvVarError::NotPresent,
        SpecSubstError::EnvVarNotUnicode(n) => e matches Error::EnvVar { name, err } && name@
            == n && err == EnvVarError::NotUnicode,
        SpecSubstError::UnknownVariable => e == Error::UnkownVariable,
        SpecSubstError::HomeUnknown => e == Error::UnknownHomeDir,
        SpecSubstError::HomeInvalid => e == Error::InvalidHomeDir,
    }
}

/// The first occurrence of `c` at or after `from`.
pub open spec fn spec_find_char(s: Seq<char>, from: int, c: char) -> Option<int>
    decreases s.len() - from,
{
    if from < 0 || from >= s.len() {
        None
    } else if s[from] == c {
        Some(from)
    } else {
        spec_find_char(s, from + 1, c)
    }
}

/// The first placeholder opening at or after `from`; the flag is true for
/// `$[`.
pub open spec fn spec_find_open(s: Seq<char>, from: int) -> Option<(int, bool)>
    decreases s.len() - from,
{
    if from < 0 || from >= s.len() {
        None
    } else if opening_at(s, from) {
        Some((from, s[from + 1] == '['))
    } else {
        spec_find_open(s, from + 1)
    }
}

/// Where a find lands: at a matching position, past the start.
proof fn lemma_find_char_bounds(s: Seq<char>, from: int, c: char)
    ensures
        spec_find_char(s, from, c) matches Some(i) ==> from <= i && i < s.len() && s[i] == c,
    decreases s.len() - from,
{
    if 0 <= from < s.len() && s[from] != c {
        lemma_find_char_bounds(s, from + 1, c);
    }
}

/// Where an opening find lands: at an opening, past the start.
proof fn lemma_find_open_bounds(s: Seq<char>, from: int)
    ensures
        spec_find_open(s, from) matches Some((i, sq)) ==> from <= i && i + 1 < s.len()
            && opening_at(s, i) && sq == (s[i + 1] == '['),
    decreases s.len() - from,
{
    if 0 <= from < s.len() && !opening_at(s, from) {
        lemma_find_open_bounds(s, from + 1);
    }
}

/// The first `$[` or `$(` at or after `from`; the flag is true for `$[`.
fn find_dollar_open(s: &Vec<char>, from: usize) -> (r: Option<(usize, bool)>)
    requires
        from <= s@.len(),
    ensures
        r matches Some((i, sq)) ==> from <= i && i + 2 <= s@.len() && opening_at(s@, i as int)
            && (forall|j: int| from <= j < i ==> !opening_at(s@, j)),
        r is None ==> forall|j: int| from <= j ==> !opening_at(s@, j),
        match r {
            Some((i, sq)) => spec_find_open(s@, from as int) == Some((i as int, sq)),
            None => spec_find_open(s@, from as int) is None,
        },
{
    let n = s.len();
    let mut i = from;
    while i < n
        invariant
            from <= i <= n,
            n == s@.len(),
            forall|j: int| from <= j < i ==> !opening_at(s@, j),
            spec_find_open(s@, from as int) == spec_find_open(s@, i as int),
        decreases n - i,
    {
        if i + 1 < n && s[i] == '$' {
            if s[i + 1] == '[' {
                return Some((i, true));
            }
            if s[i + 1] == '(' {
                return Some((i, false));
            }
        }
        i = i + 1;
    }
    None
}

/// The first occurrence of `c` at or after `from`.
fn find_char_from(s: &Vec<char>, from: usize, c: char) -> (r: Option<usize>)
    requires
        from <= s@.len(),
    ensures
        r matches Some(i) ==> from <= i && i < s@.len(),
        match r {
            Some(i) => spec_find_char(s@, from as int, c) == Some(i as int),
            None => spec_find_char(s@, from as int, c) is None,
        },
{
    let n = s.len();
    let mut i = from;
    while i < n
        invariant
            from <= i <= n,
            n == s@.len(),
            spec_find_char(s@, from as int, c) == spec_find_char(s@, i as int, c),
        decreases n - i,
    {
        if s[i] == c {
            return Some(i);
        }
        i = i + 1;
    }
    None
}

/// The abstract resolution of a `$[NAME]` or `$[NAME:fallback]`
/// expression: the variable's value; the fallback when it is unset; an
/// error when it is set to a non-Unicode value, unset without fallback, or
/// the expression holds a second separator.
pub open spec fn spec_resolve_envvar(expr: Seq<char>, env: Env) -> Result<
    Seq<char>,
    SpecSubstError,
> {
    match spec_find_char(expr, 0, ':') {
        Some(p) => {
            if spec_find_char(expr, p + 1, ':') is Some {
                Err(SpecSubstError::Illformed)
            } else {
                match Env::spec_lookup(env.vars@, expr.take(p)) {
                    Some(Some(v)) => Ok(v@),
                    Some(None) => Err(SpecSubstError::EnvVarNotUnicode(expr.take(p))),
                    None => Ok(expr.skip(p + 1)),
                }
            }
        },
        None => match Env::spec_lookup(env.vars@, expr) {
            Some(Some(v)) => Ok(v@),
            Some(None) => Err(SpecSubstError::EnvVarNotUnicode(expr)),
            None => Err(SpecSubstError::EnvVarNotPresent(expr)),
        },
    }
}

/// A well-known directory: the variable's Unicode value, else the
/// fallback.
pub open spec fn spec_xdg_or(env: Env, name: Seq<char>, fallback: Seq<char>) -> Seq<char> {
    match Env::spec_lookup(env.vars@, name) {
        Some(Some(v)) => v@,
        _ => fallback,
    }
}

/// The abstract resolution of a `$(NAME)` variable: the text to substitute,
/// `None` for a deferred `$(FILE)`, or unknown.
pub open spec fn spec_resolve_var(expr: Seq<char>, env: Env, allow_file_var: bool) -> Result<
    Option<Seq<char>>,
    SpecSubstError,
> {
    if expr == "CONFIG"@ {
        Ok(Some(spec_xdg_or(env, "XDG_CONFIG_HOME"@, "~/.config/"@)))
    } else if expr == "CACHE"@ {
        Ok(Some(spec_xdg_or(env, "XDG_CACHE_HOME"@, "~/.cache/"@)))
    } else if expr == "DATA"@ {
        Ok(Some(spec_xdg_or(env, "XDG_DATA_HOME"@, "~/.local/share/"@)))
    } else if expr == "STATE"@ {
        Ok(Some(spec_xdg_or(env, "XDG_STATE_HOME"@, "~/.local/state/"@)))
    } else if allow_file_var && expr == "FILE"@ {
        Ok(None)
    } else {
        Err(SpecSubstError::UnknownVariable)
    }
}

/// The first `k` characters with every `~` replaced by `home`.
pub open spec fn spec_tilde_upto(s: Seq<char>, home: Seq<char>, k: int) -> Seq<char>
    decreases k,
{
    if k <= 0 {
        Seq::empty()
    } else {
        spec_tilde_upto(s, home, k - 1) + (if s[k - 1] == '~' {
            home
        } else {
            seq![s[k - 1]]
        })
    }
}

/// Without a `~`, the replacement is the identity.
proof fn lemma_tilde_id(s: Seq<char>, home: Seq<char>, k: int)
    requires
        0 <= k <= s.len(),
        forall|j: int| 0 <= j < s.len() ==> s[j] != '~',
    ensures
        spec_tilde_upto(s, home, k) == s.take(k),
    decreases k,
{
    if k > 0 {
        lemma_tilde_id(s, home, k - 1);
        assert(s.take(k - 1).push(s[k - 1]) =~= s.take(k));
        assert(s.take(k - 1) + seq![s[k - 1]] =~= s.take(k - 1).push(s[k - 1]));
    }
}

/// The scanner from position `ptr`: resolves each placeholder left to
/// right (the pointer advancing by the replacement's length from its old
/// position), then replaces every `~` with the home directory.
pub open spec fn spec_scan(s: Seq<char>, ptr: int, env: Env, allow_file_var: bool) -> Result<
    Seq<char>,
    SpecSubstError,
>
    decreases s.len() - ptr
        via spec_scan_decreases
{
    match spec_find_open(s, ptr) {
        None => match env.spec_home_dir() {
            Ok(h) => Ok(spec_tilde_upto(s, h, s.len() as int)),
            Err(HomeDirError::Unknown) => Err(SpecSubstError::HomeUnknown),
            Err(HomeDirError::NotUnicode) => Err(SpecSubstError::HomeInvalid),
        },
        Some((start, square)) => {
            match spec_find_char(s, start + 2, if square { ']' } else { ')' }) {
                None => Err(SpecSubstError::Illformed),
                Some(end) => {
                    let expr = s.subrange(start + 2, end);
                    let step = if square {
                        match spec_resolve_envvar(expr, env) {
                            Ok(v) => Ok(Some(v)),
                            Err(e) => Err(e),
                        }
                    } else {
                        spec_resolve_var(expr, env, allow_file_var)
                    };
                    match step {
                        Err(e) => Err(e),
                        Ok(None) => spec_scan(s, end + 1, env, allow_file_var),
                        Ok(Some(rep)) => {
                            let s2 = s.take(start) + rep + s.skip(end + 1);
                            let np = if ptr + rep.len() < s2.len() {
                                ptr + rep.len()
                            } else {
                                s2.len() as int
                            };
                            spec_scan(s2, np, env, allow_file_var)
                        },
                    }
                },
            }
        },
    }
}

#[via_fn]
proof fn spec_scan_decreases(s: Seq<char>, ptr: int, env: Env, allow_file_var: bool) {
    lemma_find_open_bounds(s, ptr);
    match spec_find_open(s, ptr) {
        None => (),
        Some((start, square)) => {
            let close = if square {
                ']'
            } else {
                ')'
            };
            lemma_find_char_bounds(s, start + 2, close);
        },
    }
}

/// The whole substitution, abstractly: what `substitute_placeholder` owes.
pub open spec fn spec_substitute(input: Seq<char>, env: Env, allow_file_var: bool) -> Result<
    Seq<char>,
    SpecSubstError,
> {
    spec_scan(input, 0, env, allow_file_var)
}

/// Resolves a `$[NAME]` or `$[NAME:fallback]` environment expression.
fn resolve_envvar_expr(expr: &Vec<char>, env: &Env) -> (r: Result<Vec<char>, Error>)
    ensures
        r matches Err(e) ==> expr_error(e),
        ({
            let sr = spec_resolve_envvar(expr@, *env);
            match r {
                Ok(v) => sr == Ok::<Seq<char>, SpecSubstError>(v@),
                Err(e) => sr matches Err(se) && err_corresponds(e, se),
            }
        }),
{
    let first_colon = find_char_from(expr, 0, ':');
    let (name_end, alt) = match first_colon {
        Some(p) => {
            let el = expr.len();
            proof {
                assert(p < el);
            }
            if find_char_from(expr, p + 1, ':').is_some() {
                return Err(Error::Illformed);
            }
            proof {
                assert(expr@.subrange(p as int + 1, el as int) =~= expr@.skip(p as int + 1));
            }
            (p, Some(subvec(expr, p + 1, expr.len())))
        },
        None => (expr.len(), None),
    };
    let name = chars_to_string(&subvec(expr, 0, name_end));
    proof {
        if first_colon is None {
            assert(expr@.subrange(0, expr@.len() as int) =~= expr@);
        } else {
            assert(expr@.subrange(0, name_end as int) =~= expr@.take(name_end as int));
        }
    }
    match env.lookup(&name) {
        Some(Some(value)) => Ok(str_to_chars(value.as_str())),
        Some(None) => Err(Error::EnvVar { name, err: EnvVarError::NotUnicode }),
        None => match alt {
            Some(fallback) => Ok(fallback),
            None => Err(Error::EnvVar { name, err: EnvVarError::NotPresent }),
        },
    }
}

/// Resolves a `$(NAME)` variable: the well-known directories, or `$(FILE)`
/// where a file value may be substituted later (`None` defers it).
fn resolve_variable_expr(expr: &Vec<char>, env: &Env, allow_file_var: bool) -> (r: Result<
    Option<Vec<char>>,
    Error,
>)
    ensures
        r matches Err(e) ==> expr_error(e),
        ({
            let sr = spec_resolve_var(expr@, *env, allow_file_var);
            match r {
                Ok(Some(v)) => sr == Ok::<Option<Seq<char>>, SpecSubstError>(Some(v@)),
                Ok(None) => sr == Ok::<Option<Seq<char>>, SpecSubstError>(None),
                Err(e) => sr matches Err(se) && err_corresponds(e, se),
            }
        }),
{
    let name = chars_to_string(expr);
    let value = if name == String::from_str("CONFIG") {
        Some(xdg_or(env, "XDG_CONFIG_HOME", "~/.config/"))
    } else if name == String::from_str("CACHE") {
        Some(xdg_or(env, "XDG_CACHE_HOME", "~/.cache/"))
    } else if name == String::from_str("DATA") {
        Some(xdg_or(env, "XDG_DATA_HOME", "~/.local/share/"))
    } else if name == String::from_str("STATE") {
        Some(xdg_or(env, "XDG_STATE_HOME", "~/.local/state/"))
    } else {
        None
    };
    match value {
        Some(v) => Ok(Some(v)),
        None => {
            if allow_file_var && name == String::from_str("FILE") {
                Ok(None)
            } else {
                Err(Error::UnkownVariable)
            }
        },
    }
}

/// The named variable's value when it is set and Unicode, else the
/// fallback.
fn xdg_or(env: &Env, var: &str, fallback: &str) -> (r: Vec<char>)
    ensures
        r@ == spec_xdg_or(*env, var@, fallback@),
{
    let name = chars_to_string(&str_to_chars(var));
    match env.lookup(&name) {
        Some(Some(v)) => str_to_chars(v.as_str()),
        _ => str_to_chars(fallback),
    }
}

/// Substitutes every `$[..]` and `$(..)` placeholder, left to right (the
/// scan pointer advances by each replacement's length from its old
/// position, as the configuration format has always behaved, so a
/// replacement landing beyond the pointer can itself be scanned), then
/// replaces each `~` with the home directory: exactly `spec_substitute`.
///
/// With `allow_file_var`, `$(FILE)` is left in place for a later pass.
/// Input without placeholder openings and without `~` passes through
/// unchanged, though the home directory is still resolved, as the
/// configuration format demands.
pub fn substitute_placeholder(input: &str, env: &Env, allow_file_var: bool) -> (r: Result<
    String,
    Error,
>)
    ensures
        ({
            let sr = spec_substitute(input@, *env, allow_file_var);
            match r {
                Ok(o) => sr == Ok::<Seq<char>, SpecSubstError>(o@),
                Err(e) => sr matches Err(se) && err_corresponds(e, se),
            }
        }),
        r matches Err(e) ==> substitution_error(e),
        placeholder_free(input@) ==> (match env.spec_home_dir() {
            Ok(h) => r matches Ok(o) && o@ == input@,
            Err(HomeDirError::Unknown) => r == Err::<String, Error>(Error::UnknownHomeDir),
            Err(HomeDirError::NotUnicode) => r == Err::<String, Error>(Error::InvalidHomeDir),
        }),
        r == Err::<String, Error>(Error::UnknownHomeDir) ==> env.spec_home_dir() == Err::<
            Seq<char>,
            HomeDirError,
        >(HomeDirError::Unknown),
        r == Err::<String, Error>(Error::InvalidHomeDir) ==> env.spec_home_dir() == Err::<
            Seq<char>,
            HomeDirError,
        >(HomeDirError::NotUnicode),
{
    let mut s = str_to_chars(input);
    let mut ptr: usize = 0;
    loop
        invariant
            ptr <= s@.len(),
            placeholder_free(input@) ==> s@ == input@,
            spec_scan(s@, ptr as int, *env, allow_file_var) == spec_substitute(
                input@,
                *env,
                allow_file_var,
            ),
        ensures
            ptr <= s@.len(),
            placeholder_free(input@) ==> s@ == input@,
            spec_scan(s@, ptr as int, *env, allow_file_var) == spec_substitute(
                input@,
                *env,
                allow_file_var,
            ),
            spec_find_open(s@, ptr as int) is None,
        decreases s@.len() - ptr,
    {
        let ghost s0 = s@;
        let ghost ptr0 = ptr as int;
        let next = find_dollar_open(&s, ptr);
        let (start, square) = match next {
            Some(p) => p,
            None => { break; },
        };
        let sl = s.len();
        proof {
            assert(start + 2 <= sl);
        }
        let close = if square {
            ']'
        } else {
            ')'
        };
        let end = match find_char_from(&s, start + 2, close) {
            Some(e) => e,
            None => { return Err(Error::Illformed); },
        };
        proof {
            assert(end < sl);
        }
        let expr = subvec(&s, start + 2, end);
        let resolved = if square {
            Some(resolve_envvar_expr(&expr, env)?)
        } else {
            resolve_variable_expr(&expr, env, allow_file_var)?
        };
        match resolved {
            Some(rep) => {
                s = splice(&s, start, end + 1, &rep);
                let sl2 = s.len();
                proof {
                    assert(ptr <= start <= sl2);
                }
                if sl2 - ptr > rep.len() {
                    ptr = ptr + rep.len();
                } else {
                    ptr = sl2;
                }
                proof {
                    assert(spec_scan(s0, ptr0, *env, allow_file_var) == spec_scan(
                        s@,
                        ptr as int,
                        *env,
                        allow_file_var,
                    ));
                }
            },
            None => {
                ptr = end + 1;
                proof {
                    assert(spec_scan(s0, ptr0, *env, allow_file_var) == spec_scan(
                        s@,
                        ptr as int,
                        *env,
                        allow_file_var,
                    ));
                }
            },
        }
    }
    let home = match env.home_dir() {
        Ok(h) => str_to_chars(h.as_str()),
        Err(HomeDirError::Unknown) => { return Err(Error::UnknownHomeDir); },
        Err(HomeDirError::NotUnicode) => { return Err(Error::InvalidHomeDir); },
    };
    let mut r: Vec<char> = Vec::new();
    let n = s.len();
    let mut i: usize = 0;
    while i < n
        invariant
            i <= n,
            n == s@.len(),
            r@ == spec_tilde_upto(s@, home@, i as int),
        decreases n - i,
    {
        if s[i] == '~' {
            let ghost r0 = r@;
            let mut k: usize = 0;
            let hn = home.len();
            while k < hn
                invariant
                    k <= hn,
                    hn == home@.len(),
                    r@ == r0 + home@.take(k as int),
                decreases hn - k,
            {
                r.push(home[k]);
                proof {
                    assert(r0 + home@.take(k as int + 1) =~= (r0 + home@.take(k as int)).push(
                        home@[k as int],
                    ));
                }
                k = k + 1;
            }
            proof {
                assert(home@.take(hn as int) =~= home@);
                assert(spec_tilde_upto(s@, home@, i as int + 1) == spec_tilde_upto(
                    s@,
                    home@,
                    i as int,
                ) + home@);
            }
        } else {
            r.push(s[i]);
            proof {
                assert(spec_tilde_upto(s@, home@, i as int) + seq![s@[i as int]] =~= spec_tilde_upto(
                    s@,
                    home@,
                    i as int,
                ).push(s@[i as int]));
            }
        }
        i = i + 1;
    }
    proof {
        if placeholder_free(input@) {
            lemma_tilde_id(s@, home@, n as int);
            assert(s@.take(n as int) =~= s@);
        }
    }
    Ok(chars_to_string(&r))
}

/// Substitutes placeholders and requires the result to be an absolute path.
pub fn canonicalize_path(path: &str, env: &Env) -> (r: Result<String, Error>)
    ensures
        ({
            let sr = spec_substitute(path@, *env, false);
            match sr {
                Ok(o) => if o.len() > 0 && o[0] == '/' {
                    r matches Ok(p) && p@ == o
                } else {
                    r == Err::<String, Error>(Error::RelativePath)
                },
                Err(se) => r matches Err(e) && err_corresponds(e, se),
            }
        }),
        r matches Ok(p) ==> p@.len() > 0 && p@[0] == '/',
        r matches Err(e) ==> substitution_error(e) || e is RelativePath,
        placeholder_free(path@) && env.spec_home_dir() is Ok ==> (if path@.len() > 0 && path@[0]
            == '/' {
            r matches Ok(p) && p@ == path@
        } else {
            r == Err::<String, Error>(Error::RelativePath)
        }),
{
    let p = substitute_placeholder(path, env, false)?;
    let chars = str_to_chars(p.as_str());
    if chars.len() == 0 || chars[0] != '/' {
        return Err(Error::RelativePath);
    }
    Ok(p)
}

/// Substitutes placeholders in an include path. An absolute result stands
/// by itself; a relative one picks the unique existing candidate that the
/// caller found under the include directories: none is an error, several
/// are ambiguous.
pub fn canonicalize_include_path(path: &str, env: &Env, existing: Vec<String>) -> (r: Result<
    String,
    Error,
>)
    ensures
        r matches Err(e) ==> substitution_error(e) || e is IncludeFileNotFound
            || e matches Error::MultipleMatchingIncludeFiles { files },
        ({
            let sr = spec_substitute(path@, *env, false);
            match sr {
                Ok(o) => if o.len() > 0 && o[0] == '/' {
                    r matches Ok(p) && p@ == o
                } else if existing@.len() == 0 {
                    r == Err::<String, Error>(Error::IncludeFileNotFound)
                } else if existing@.len() == 1 {
                    r == Ok::<String, Error>(existing@[0])
                } else {
                    r matches Err(Error::MultipleMatchingIncludeFiles { files }) && files
                        == existing
                },
                Err(se) => r matches Err(e) && err_corresponds(e, se),
            }
        }),
        r == Err::<String, Error>(Error::IncludeFileNotFound) ==> existing@.len() == 0,
        r matches Err(Error::MultipleMatchingIncludeFiles { files }) ==> files == existing
            && existing@.len() >= 2,
        r matches Ok(p) ==> ((p@.len() > 0 && p@[0] == '/') || (existing@.len() == 1 && p
            == existing@[0])),
        placeholder_free(path@) && env.spec_home_dir() is Ok && !(path@.len() > 0 && path@[0]
            == '/') ==> (if existing@.len() == 0 {
            r == Err::<String, Error>(Error::IncludeFileNotFound)
        } else if existing@.len() == 1 {
            r == Ok::<String, Error>(existing@[0])
        } else {
            r matches Err(Error::MultipleMatchingIncludeFiles { files }) && files == existing
        }),
{
    let p = substitute_placeholder(path, env, false)?;
    let chars = str_to_chars(p.as_str());
    if chars.len() > 0 && chars[0] == '/' {
        return Ok(p);
    }
    let mut existing = existing;
    if existing.len() == 0 {
        Err(Error::IncludeFileNotFound)
    } else if existing.len() >= 2 {
        Err(Error::MultipleMatchingIncludeFiles { files: existing })
    } else {
        let f = existing.remove(0);
        Ok(f)
    }
}

/// The directories project data is read from: the configuration and data
/// directories, each with the launcher's own subdirectory.
pub fn get_data_root_paths(env: &Env) -> (r: Result<Vec<String>, Error>)
    ensures
        r matches Ok(dirs) ==> ({
            let c = spec_substitute("$(CONFIG)/skeld"@, *env, false);
            let d = spec_substitute("$(DATA)/skeld"@, *env, false);
            &&& dirs@.len() == 2
            &&& (c matches Ok(cv) && dirs@[0]@ == cv)
            &&& (d matches Ok(dv) && dirs@[1]@ == dv)
        }),
        r matches Ok(dirs) ==> dirs@.len() == 2 && forall|i: int|
            0 <= i < dirs@.len() ==> (#[trigger] dirs@[i])@.len() > 0 && dirs@[i]@[0] == '/',
        r matches Err(e) ==> substitution_error(e) || e is RelativePath,
{
    let config_dir = canonicalize_path("$(CONFIG)/skeld", env)?;
    let data_dir = canonicalize_path("$(DATA)/skeld", env)?;
    let mut r: Vec<String> = Vec::new();
    r.push(config_dir);
    r.push(data_dir);
    Ok(r)
}

} // verus!
