//! The rules of the multi-store configuration: which store names are
//! accepted, and how `${VAR}` references in settings expand against the
//! values of the environment.

use vstd::prelude::*;
use crate::text::{chars_of, push_all, push_str, str_eq, string_chars, string_from};

verus! {

/// The default discovery roots of a store: its root only.
pub fn default_roots() -> (r: Vec<String>)
    ensures
        r@.len() == 1,
        r@[0]@ == Seq::<char>::empty(),
{
    let mut v: Vec<String> = Vec::new();
    v.push(String::new());
    v
}

/// A character allowed in a store name: ASCII letter or digit, `-`, `_`.
pub open spec fn name_char_ok(c: char) -> bool {
    let u = c as u32;
    (0x61 <= u <= 0x7a) || (0x41 <= u <= 0x5a) || (0x30 <= u <= 0x39) || c == '-' || c == '_'
}

/// A store name is non-empty and made of allowed characters (`:`
/// separates the store from the path in database ids).
pub open spec fn valid_store_name(n: Seq<char>) -> bool {
    n.len() > 0 && forall|i: int| 0 <= i < n.len() ==> name_char_ok(#[trigger] n[i])
}

/// Position of the first invalid name.
pub open spec fn first_invalid(ns: Seq<Seq<char>>) -> Option<int>
    decreases ns.len(),
{
    if ns.len() == 0 {
        None
    } else {
        match first_invalid(ns.drop_last()) {
            Some(i) => Some(i),
            None => if !valid_store_name(ns.last()) {
                Some(ns.len() - 1)
            } else {
                None
            },
        }
    }
}

/// Two stores share a name.
pub open spec fn has_duplicate(ns: Seq<Seq<char>>) -> bool {
    exists|i: int, j: int| 0 <= i < j < ns.len() && #[trigger] ns[i] == #[trigger] ns[j]
}

pub open spec fn invalid_name_message(n: Seq<char>) -> Seq<char> {
    "store name '"@ + n + "' is invalid (use [A-Za-z0-9_-]+; ':' is the id separator)"@
}

/// The verdict on the store names of a configuration, in file order: at
/// least one store, every name valid (the first invalid one is named),
/// no name twice.
pub open spec fn names_verdict(ns: Seq<Seq<char>>) -> Result<(), Seq<char>> {
    if ns.len() == 0 {
        Err("config has no [[stores]] entries"@)
    } else {
        match first_invalid(ns) {
            Some(i) => Err(invalid_name_message(ns[i])),
            None => if has_duplicate(ns) {
                Err("store names must be unique"@)
            } else {
                Ok(())
            },
        }
    }
}

pub open spec fn unit_result_view(r: Result<(), String>) -> Result<(), Seq<char>> {
    match r {
        Ok(()) => Ok(()),
        Err(e) => Err(e@),
    }
}

pub open spec fn texts(ns: Seq<String>) -> Seq<Seq<char>> {
    ns.map_values(|s: String| s@)
}

proof fn lemma_first_invalid(ns: Seq<Seq<char>>)
    ensures
        first_invalid(ns) matches Some(i) ==> 0 <= i < ns.len() && !valid_store_name(ns[i]),
        first_invalid(ns) is None ==> forall|i: int| 0 <= i < ns.len() ==> valid_store_name(#[trigger] ns[i]),
    decreases ns.len(),
{
    if ns.len() > 0 {
        lemma_first_invalid(ns.drop_last());
        assert forall|i: int| 0 <= i < ns.len() - 1 implies #[trigger] ns.drop_last()[i] == ns[i] by {}
        if first_invalid(ns) is None {
            assert forall|i: int| 0 <= i < ns.len() implies valid_store_name(#[trigger] ns[i]) by {
                if i < ns.len() - 1 {
                    assert(ns.drop_last()[i] == ns[i]);
                }
            }
        }
    }
}

fn name_is_valid(n: &String) -> (r: bool)
    ensures
        r == valid_store_name(n@),
{
    let cs = string_chars(n);
    if cs.len() == 0 {
        return false;
    }
    let mut i: usize = 0;
    while i < cs.len()
        invariant
            i <= cs@.len(),
            cs@ == n@,
            forall|j: int| 0 <= j < i ==> name_char_ok(#[trigger] cs@[j]),
        decreases cs@.len() - i,
    {
        let c = cs[i];
        let u = c as u32;
        let ok = (0x61 <= u && u <= 0x7a) || (0x41 <= u && u <= 0x5a) || (0x30 <= u && u <= 0x39) || c == '-' || c
            == '_';
        if !ok {
            assert(!name_char_ok(cs@[i as int]));
            return false;
        }
        i = i + 1;
    }
    true
}

/// Checks the store names of a configuration.
pub fn validate_store_names(names: &Vec<String>) -> (r: Result<(), String>)
    ensures
        unit_result_view(r) == names_verdict(texts(names@)),
{
    let ghost ns = texts(names@);
    if names.len() == 0 {
        let msg = chars_of("config has no [[stores]] entries");
        return Err(string_from(&msg));
    }
    let mut i: usize = 0;
    while i < names.len()
        invariant
            i <= names@.len(),
            ns == texts(names@),
            first_invalid(ns.take(i as int)) is None,
        decreases names@.len() - i,
    {
        proof {
            assert(ns.take(i + 1).drop_last() =~= ns.take(i as int));
            assert(ns.take(i + 1).last() == names@[i as int]@);
        }
        if !name_is_valid(&names[i]) {
            proof {
                lemma_first_invalid(ns.take(i + 1));
                assert(first_invalid(ns.take(i + 1)) == Some(i as int));
                assert forall|k: int| 0 <= k <= i implies #[trigger] ns.take(i + 1)[k] == ns[k] by {}
                lemma_prefix_invalid(ns, i + 1);
            }
            let mut msg: Vec<char> = Vec::new();
            push_str(&mut msg, "store name '");
            push_str(&mut msg, names[i].as_str());
            push_str(&mut msg, "' is invalid (use [A-Za-z0-9_-]+; ':' is the id separator)");
            assert(msg@ =~= invalid_name_message(ns[i as int]));
            return Err(string_from(&msg));
        }
        i = i + 1;
    }
    assert(ns.take(ns.len() as int) =~= ns);
    let mut a: usize = 0;
    while a < names.len()
        invariant
            a <= names@.len(),
            ns == texts(names@),
            ns.len() > 0,
            first_invalid(ns) is None,
            forall|x: int, y: int| 0 <= x < a && x < y < ns.len() ==> ns[x] != ns[y],
        decreases names@.len() - a,
    {
        let mut b: usize = a + 1;
        while b < names.len()
            invariant
                a < names@.len(),
                a + 1 <= b <= names@.len(),
                ns == texts(names@),
                ns.len() > 0,
                first_invalid(ns) is None,
                forall|x: int, y: int| 0 <= x < a && x < y < ns.len() ==> ns[x] != ns[y],
                forall|y: int| a < y < b ==> ns[a as int] != ns[y],
            decreases names@.len() - b,
        {
            if str_eq(names[a].as_str(), names[b].as_str()) {
                assert(ns[a as int] == ns[b as int]);
                assert(has_duplicate(ns));
                let msg = chars_of("store names must be unique");
                return Err(string_from(&msg));
            }
            b = b + 1;
        }
        a = a + 1;
    }
    assert(!has_duplicate(ns));
    Ok(())
}

proof fn lemma_prefix_invalid(ns: Seq<Seq<char>>, k: int)
    requires
        0 <= k <= ns.len(),
        first_invalid(ns.take(k)) is Some,
    ensures
        first_invalid(ns) == first_invalid(ns.take(k)),
    decreases ns.len() - k,
{
    if k < ns.len() {
        assert(ns.take(k + 1).drop_last() =~= ns.take(k));
        lemma_prefix_invalid(ns, k + 1);
    } else {
        assert(ns.take(k) =~= ns);
    }
}

/// Position of the first `${` in `s`.
pub open spec fn first_open(s: Seq<char>) -> Option<nat>
    decreases s.len(),
{
    if s.len() < 2 {
        None
    } else if s[0] == '$' && s[1] == '{' {
        Some(0)
    } else {
        match first_open(s.drop_first()) {
            Some(k) => Some(k + 1),
            None => None,
        }
    }
}

/// Position of the first `}` in `s`.
pub open spec fn first_close(s: Seq<char>) -> Option<nat>
    decreases s.len(),
{
    if s.len() == 0 {
        None
    } else if s[0] == '}' {
        Some(0)
    } else {
        match first_close(s.drop_first()) {
            Some(k) => Some(k + 1),
            None => None,
        }
    }
}

pub open spec fn opens_at(s: Seq<char>, i: int) -> bool {
    0 <= i && i + 1 < s.len() && s[i] == '$' && s[i + 1] == '{'
}

pub proof fn lemma_first_open(s: Seq<char>)
    ensures
        first_open(s) matches Some(k) ==> opens_at(s, k as int) && forall|j: int| 0 <= j < k ==> !opens_at(s, j),
        first_open(s) is None ==> forall|j: int| !opens_at(s, j),
    decreases s.len(),
{
    if s.len() >= 2 && !(s[0] == '$' && s[1] == '{') {
        lemma_first_open(s.drop_first());
        assert forall|j: int| opens_at(s, j) && j >= 1 implies opens_at(s.drop_first(), j - 1) by {}
        assert forall|j: int| opens_at(s.drop_first(), j) implies opens_at(s, j + 1) by {}
    }
}

pub proof fn lemma_first_close(s: Seq<char>)
    ensures
        first_close(s) matches Some(k) ==> k < s.len() && s[k as int] == '}' && forall|j: int| 0 <= j < k ==> s[j] != '}',
        first_close(s) is None ==> forall|j: int| 0 <= j < s.len() ==> s[j] != '}',
    decreases s.len(),
{
    if s.len() > 0 && s[0] != '}' {
        lemma_first_close(s.drop_first());
        assert forall|j: int| 1 <= j < s.len() implies s[j] == s.drop_first()[j - 1] by {}
    }
}

/// The variables that `${VAR}` references in `s` name, in order, up to an
/// unclosed `${`.
pub open spec fn references(s: Seq<char>) -> Seq<Seq<char>>
    decreases s.len(),
{
    match first_open(s) {
        None => seq![],
        Some(i) => {
            let after = s.skip(i + 2int);
            match first_close(after) {
                None => seq![],
                Some(j) => {
                    proof {
                        lemma_first_open(s);
                        lemma_first_close(after);
                    }
                    seq![after.take(j as int)] + references(after.skip(j + 1int))
                },
            }
        },
    }
}

pub open spec fn unclosed_message(ctx: Seq<char>) -> Seq<char> {
    ctx + ": unclosed ${ in value"@
}

pub open spec fn unset_message(ctx: Seq<char>, var: Seq<char>) -> Seq<char> {
    ctx + ": environment variable '"@ + var + "' is not set"@
}

/// `s` with each `${VAR}` replaced, in order, by the next of `vals` (the
/// values of the referenced variables, `None` when unset). An unset
/// variable, or a `${` without its `}`, is an error naming `ctx`; the
/// first of them in the text decides.
pub open spec fn expansion(s: Seq<char>, vals: Seq<Option<Seq<char>>>, ctx: Seq<char>) -> Result<Seq<char>, Seq<char>>
    decreases s.len(),
{
    match first_open(s) {
        None => Ok(s),
        Some(i) => {
            let after = s.skip(i + 2int);
            match first_close(after) {
                None => Err(unclosed_message(ctx)),
                Some(j) => {
                    let var = after.take(j as int);
                    if vals.len() == 0 || vals[0] is None {
                        Err(unset_message(ctx, var))
                    } else {
                        proof {
                            lemma_first_open(s);
                            lemma_first_close(after);
                        }
                        match expansion(after.skip(j + 1int), vals.drop_first(), ctx) {
                            Ok(r) => Ok(s.take(i as int) + vals[0]->0 + r),
                            Err(e) => Err(e),
                        }
                    }
                },
            }
        },
    }
}

pub open spec fn value_views(vs: Seq<Option<String>>) -> Seq<Option<Seq<char>>> {
    vs.map_values(|v: Option<String>|
        match v {
            Some(s) => Some(s@),
            None => None,
        })
}

pub open spec fn prefixed(o: Seq<char>, r: Result<Seq<char>, Seq<char>>) -> Result<Seq<char>, Seq<char>> {
    match r {
        Ok(x) => Ok(o + x),
        Err(e) => Err(e),
    }
}

pub open spec fn string_result_view(r: Result<String, String>) -> Result<Seq<char>, Seq<char>> {
    match r {
        Ok(s) => Ok(s@),
        Err(e) => Err(e@),
    }
}

proof fn lemma_skip_opens(cs: Seq<char>, from: int)
    requires
        0 <= from <= cs.len(),
    ensures
        forall|j: int| 0 <= j ==> (opens_at(cs.skip(from), j) == #[trigger] opens_at(cs, j + from)),
{
}

/// Position of the first `${` at or after `from`.
fn find_open(cs: &Vec<char>, from: usize) -> (r: Option<usize>)
    requires
        from <= cs@.len(),
    ensures
        match first_open(cs@.skip(from as int)) {
            Some(k) => r == Some((k + from) as usize),
            None => r is None,
        },
        r matches Some(i) ==> from <= i && i + 1 < cs@.len(),
{
    let ghost s = cs@.skip(from as int);
    proof {
        lemma_first_open(s);
        lemma_skip_opens(cs@, from as int);
    }
    let mut i: usize = from;
    while i < cs.len()
        invariant
            from <= i <= cs@.len(),
            s == cs@.skip(from as int),
            forall|j: int| from <= j < i ==> !opens_at(cs@, j),
        decreases cs@.len() - i,
    {
        if i + 1 < cs.len() && cs[i] == '$' && cs[i + 1] == '{' {
            proof {
                lemma_first_open(s);
                assert(opens_at(cs@, i as int));
                assert(s[i - from] == cs@[i as int] && s[i - from + 1] == cs@[i + 1]);
                assert(opens_at(s, i - from));
                match first_open(s) {
                    Some(k) => {
                        if k < i - from {
                            assert(s[k as int] == cs@[k + from] && s[k + 1int] == cs@[k + from + 1]);
                            assert(opens_at(cs@, k + from));
                        }
                    },
                    None => {},
                }
            }
            return Some(i);
        }
        assert(!opens_at(cs@, i as int));
        i = i + 1;
    }
    proof {
        match first_open(s) {
            Some(k) => {
                assert(s[k as int] == cs@[k + from] && s[k + 1int] == cs@[k + from + 1]);
                assert(opens_at(cs@, k + from));
            },
            None => {},
        }
    }
    None
}

/// Position of the first `}` at or after `from`.
fn find_close(cs: &Vec<char>, from: usize) -> (r: Option<usize>)
    requires
        from <= cs@.len(),
    ensures
        match first_close(cs@.skip(from as int)) {
            Some(k) => r == Some((k + from) as usize),
            None => r is None,
        },
        r matches Some(j) ==> from <= j < cs@.len(),
{
    proof {
        lemma_first_close(cs@.skip(from as int));
    }
    let mut i: usize = from;
    while i < cs.len()
        invariant
            from <= i <= cs@.len(),
            forall|j: int| from <= j < i ==> cs@[j] != '}',
        decreases cs@.len() - i,
    {
        if cs[i] == '}' {
            proof {
                let s = cs@.skip(from as int);
                lemma_first_close(s);
                assert(s[i - from] == cs@[i as int]);
                match first_close(s) {
                    Some(k) => {
                        if k < i - from {
                            assert(s[k as int] == cs@[k + from]);
                        }
                        if k > i - from {
                            assert(s[i - from] == '}');
                        }
                    },
                    None => {
                        assert(s[i - from] == '}');
                    },
                }
            }
            return Some(i);
        }
        i = i + 1;
    }
    proof {
        let s = cs@.skip(from as int);
        match first_close(s) {
            Some(k) => {
                assert(s[k as int] == cs@[k + from]);
            },
            None => {},
        }
    }
    None
}

fn push_range(out: &mut Vec<char>, cs: &Vec<char>, lo: usize, hi: usize)
    requires
        lo <= hi <= cs@.len(),
    ensures
        final(out)@ == old(out)@ + cs@.subrange(lo as int, hi as int),
{
    let mut i: usize = lo;
    while i < hi
        invariant
            lo <= i <= hi,
            hi <= cs@.len(),
            out@ == old(out)@ + cs@.subrange(lo as int, i as int),
        decreases hi - i,
    {
        out.push(cs[i]);
        assert(cs@.subrange(lo as int, i + 1) =~= cs@.subrange(lo as int, i as int).push(cs@[i as int]));
        i = i + 1;
    }
}

/// The names of the variables that `${VAR}` references in `input` name,
/// in order, up to an unclosed `${`.
pub fn references_in(input: &str) -> (r: Vec<String>)
    ensures
        texts(r@) == references(input@),
{
    let cs = chars_of(input);
    let mut out: Vec<String> = Vec::new();
    let mut pos: usize = 0;
    assert(cs@.skip(0) =~= cs@);
    assert(texts(out@) + references(cs@) =~= references(cs@));
    while pos <= cs.len()
        invariant
            pos <= cs@.len(),
            cs@ == input@,
            references(cs@) == texts(out@) + references(cs@.skip(pos as int)),
        decreases cs@.len() - pos,
    {
        let ghost s = cs@.skip(pos as int);
        match find_open(&cs, pos) {
            None => {
                assert(texts(out@) + references(s) =~= texts(out@));
                return out;
            },
            Some(i) => {
                proof {
                    lemma_first_open(s);
                    assert(s.skip((i - pos) + 2) =~= cs@.skip(i + 2));
                }
                match find_close(&cs, i + 2) {
                    None => {
                        assert(texts(out@) + references(s) =~= texts(out@));
                        return out;
                    },
                    Some(j) => {
                        let mut name: Vec<char> = Vec::new();
                        push_range(&mut name, &cs, i + 2, j);
                        let ghost after = cs@.skip(i + 2);
                        proof {
                            lemma_first_close(after);
                            assert(after.take(j - (i + 2)) =~= cs@.subrange(i + 2, j as int));
                            assert(after.skip(j - (i + 2) + 1) =~= cs@.skip(j + 1));
                        }
                        let ghost before = texts(out@);
                        out.push(string_from(&name));
                        proof {
                            assert(texts(out@) =~= before.push(cs@.subrange(i + 2, j as int)));
                            assert(references(s) == seq![cs@.subrange(i + 2, j as int)] + references(
                                cs@.skip(j + 1),
                            ));
                            assert(texts(out@) + references(cs@.skip(j + 1)) =~= before + references(s));
                        }
                        pos = j + 1;
                    },
                }
            },
        }
    }
    out
}

/// Expands the `${VAR}` references of `input`, the `k`-th one to
/// `values[k]` (`None`: the variable is not set). Errors name `ctx`.
pub fn expand_with(input: &str, values: &Vec<Option<String>>, ctx: &str) -> (r: Result<String, String>)
    ensures
        string_result_view(r) == expansion(input@, value_views(values@), ctx@),
{
    let cs = chars_of(input);
    let ghost vv = value_views(values@);
    let mut out: Vec<char> = Vec::new();
    let mut pos: usize = 0;
    let mut k: usize = 0;
    assert(cs@.skip(0) =~= cs@);
    assert(vv.skip(0) =~= vv);
    proof {
        match expansion(cs@, vv, ctx@) {
            Ok(x) => assert(out@ + x =~= x),
            Err(_) => {},
        }
    }
    while pos <= cs.len()
        invariant
            pos <= cs@.len(),
            k <= values@.len(),
            cs@ == input@,
            vv == value_views(values@),
            expansion(cs@, vv, ctx@) == prefixed(out@, expansion(cs@.skip(pos as int), vv.skip(k as int), ctx@)),
        decreases cs@.len() - pos,
    {
        let ghost s = cs@.skip(pos as int);
        let ghost rest_vals = vv.skip(k as int);
        match find_open(&cs, pos) {
            None => {
                push_range(&mut out, &cs, pos, cs.len());
                assert(cs@.subrange(pos as int, cs@.len() as int) =~= s);
                return Ok(string_from(&out));
            },
            Some(i) => {
                proof {
                    lemma_first_open(s);
                    assert(s.skip((i - pos) + 2) =~= cs@.skip(i + 2));
                    assert(s.take(i - pos) =~= cs@.subrange(pos as int, i as int));
                }
                match find_close(&cs, i + 2) {
                    None => {
                        let mut msg: Vec<char> = Vec::new();
                        push_str(&mut msg, ctx);
                        push_str(&mut msg, ": unclosed ${ in value");
                        assert(msg@ =~= unclosed_message(ctx@));
                        return Err(string_from(&msg));
                    },
                    Some(j) => {
                        let ghost after = cs@.skip(i + 2);
                        proof {
                            lemma_first_close(after);
                            assert(after.take(j - (i + 2)) =~= cs@.subrange(i + 2, j as int));
                            assert(after.skip(j - (i + 2) + 1) =~= cs@.skip(j + 1));
                        }
                        let value: Option<&String> = if k < values.len() {
                            match &values[k] {
                                Some(v) => Some(v),
                                None => None,
                            }
                        } else {
                            None
                        };
                        match value {
                            None => {
                                let mut msg: Vec<char> = Vec::new();
                                push_str(&mut msg, ctx);
                                push_str(&mut msg, ": environment variable '");
                                push_range(&mut msg, &cs, i + 2, j);
                                push_str(&mut msg, "' is not set");
                                assert(msg@ =~= unset_message(ctx@, cs@.subrange(i + 2, j as int)));
                                return Err(string_from(&msg));
                            },
                            Some(v) => {
                                let ghost o = out@;
                                push_range(&mut out, &cs, pos, i);
                                let vc = string_chars(v);
                                push_all(&mut out, &vc);
                                proof {
                                    assert(rest_vals[0] == Some(v@));
                                    assert(rest_vals.drop_first() =~= vv.skip(k + 1));
                                    assert(out@ =~= o + (s.take(i - pos) + v@));
                                    let e = expansion(cs@.skip(j + 1), vv.skip(k + 1), ctx@);
                                    assert(expansion(s, rest_vals, ctx@) == match e {
                                        Ok(r) => Ok(s.take(i - pos) + v@ + r),
                                        Err(e) => Err(e),
                                    });
                                    match e {
                                        Ok(r) => {
                                            assert(o + (s.take(i - pos) + v@ + r) =~= out@ + r);
                                        },
                                        Err(_) => {},
                                    }
                                }
                                pos = j + 1;
                                k = k + 1;
                            },
                        }
                    },
                }
            },
        }
    }
    Ok(string_from(&out))
}

} // verus!
