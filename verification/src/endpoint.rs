//! The decisions of the interactive endpoint setup: how answers are read,
//! which model a pick selects, and which backend becomes active.
use vstd::prelude::*;

use crate::backend::{normalize_url, strip_slashes};
use crate::text::at_least_one;
use crate::strings::{
    chars_eq, decimal, from_chars, parse_usize, parse_usize_spec, string_views, to_chars, trim,
    trim_chars, usize_to_decimal,
};

verus! {

/// The answer to a prompt: what was typed, trimmed, or the default when
/// nothing was typed.
pub open spec fn answer_of(input: Seq<char>, default: Seq<char>) -> Seq<char> {
    if trim(input).len() == 0 {
        default
    } else {
        trim(input)
    }
}

/// The answer to a prompt, given the line typed and the default: a line of
/// whitespace only gives the default; any other line gives itself without
/// leading and trailing whitespace.
pub fn prompt_answer(input: &str, default: &str) -> (r: String)
    ensures
        r@ == answer_of(input@, default@),
        trim(input@).len() == 0 ==> r@ == default@,
        trim(input@).len() > 0 ==> r@ == trim(input@),
{
    let chars = to_chars(input);
    let t = trim_chars(chars.as_slice());
    if t.len() == 0 {
        String::from_str(default)
    } else {
        from_chars(t.as_slice())
    }
}

/// The prompt for a base URL.
pub fn url_prompt_label(label: &str) -> (r: String)
    ensures
        r@ == label@ + " URL (empty=skip)"@,
{
    let mut r = String::from_str(label);
    r.append(" URL (empty=skip)");
    r
}

/// The prompt for a yes/no question.
pub fn bool_prompt_label(label: &str) -> (r: String)
    ensures
        r@ == label@ + " (yes/no)"@,
{
    let mut r = String::from_str(label);
    r.append(" (yes/no)");
    r
}

/// The default answer shown for a yes/no question.
pub fn bool_default_text(default: bool) -> (r: &'static str)
    ensures
        r@ == (if default {
            "yes"@
        } else {
            "no"@
        }),
{
    if default {
        "yes"
    } else {
        "no"
    }
}

/// Whether an answer means yes: it is `yes` or `y`.
pub fn yes_answer(answer: &str) -> (r: bool)
    ensures
        r == (answer@ == "yes"@ || answer@ == "y"@),
{
    let a = to_chars(answer);
    let yes = to_chars("yes");
    let y = to_chars("y");
    chars_eq(a.as_slice(), yes.as_slice()) || chars_eq(a.as_slice(), y.as_slice())
}

/// The default shown for a count.
pub fn usize_default_text(default: usize) -> (r: String)
    ensures
        r@ == decimal(default as nat),
{
    let d = usize_to_decimal(default);
    from_chars(d.as_slice())
}

/// The count an answer gives: the number it denotes, else the default; at
/// least 1.
pub open spec fn count_answer(answer: Seq<char>, default: usize) -> int {
    at_least_one(
        match parse_usize_spec(answer) {
            Some(v) => v as int,
            None => default as int,
        },
    )
}

/// The count an answer gives.
pub fn usize_answer(answer: &str, default: usize) -> (r: usize)
    ensures
        r == count_answer(answer@, default),
{
    let a = to_chars(answer);
    let v = match parse_usize(a.as_slice()) {
        Some(v) => v,
        None => default,
    };
    if v < 1 {
        1
    } else {
        v
    }
}

/// The model that a typed pick selects from a list: the number (trimmed)
/// counts from 1; anything else selects none.
pub open spec fn picked_model(models: Seq<Seq<char>>, input: Seq<char>) -> Option<Seq<char>> {
    match parse_usize_spec(trim(input)) {
        Some(i) => if 1 <= i <= models.len() {
            Some(models[i - 1])
        } else {
            None
        },
        None => None,
    }
}

/// The model that the typed `input` picks from `models`.
pub fn pick_model(models: &[String], input: &str) -> (r: Option<String>)
    ensures
        match r {
            Some(m) => picked_model(string_views(models@), input@) == Some(m@),
            None => picked_model(string_views(models@), input@) is None,
        },
{
    let chars = to_chars(input);
    let t = trim_chars(chars.as_slice());
    match parse_usize(t.as_slice()) {
        Some(i) => {
            if 1 <= i && i <= models.len() {
                Some(models[i - 1].clone())
            } else {
                None
            }
        },
        None => None,
    }
}

/// The backends that can be chosen: those with a base URL, each with its
/// number in the full list (counted from 1).
pub open spec fn backend_candidates(names: Seq<Seq<char>>, base_urls: Seq<Seq<char>>, k: int) -> Seq<
    (int, Seq<char>),
>
    decreases k,
{
    if k <= 0 {
        Seq::empty()
    } else if base_urls[k - 1].len() == 0 {
        backend_candidates(names, base_urls, k - 1)
    } else {
        backend_candidates(names, base_urls, k - 1).push((k, names[k - 1]))
    }
}

/// The views of numbered backend names.
pub open spec fn numbered_views(v: Seq<(usize, String)>) -> Seq<(int, Seq<char>)> {
    v.map_values(|p: (usize, String)| (p.0 as int, p.1@))
}

/// The backends that can be chosen, numbered as listed.
pub fn valid_backends(names: &[String], base_urls: &[String]) -> (r: Vec<(usize, String)>)
    requires
        names.len() == base_urls.len(),
    ensures
        numbered_views(r@) == backend_candidates(
            string_views(names@),
            string_views(base_urls@),
            names.len() as int,
        ),
{
    let mut r: Vec<(usize, String)> = Vec::new();
    let mut i: usize = 0;
    while i < names.len()
        invariant
            names.len() == base_urls.len(),
            i <= names.len(),
            numbered_views(r@) == backend_candidates(
                string_views(names@),
                string_views(base_urls@),
                i as int,
            ),
        decreases names.len() - i,
    {
        let url = to_chars(base_urls[i].as_str());
        if url.len() > 0 {
            let ghost before = r@;
            r.push((i + 1, names[i].clone()));
            assert(numbered_views(r@) =~= numbered_views(before).push(
                ((i + 1) as int, names@[i as int]@),
            ));
        }
        i = i + 1;
    }
    r
}

/// The name of the first candidate numbered `n`, if any.
pub open spec fn candidate_numbered(valid: Seq<(int, Seq<char>)>, n: int) -> Option<Seq<char>>
    decreases valid.len(),
{
    if valid.len() == 0 {
        None
    } else if valid[0].0 == n {
        Some(valid[0].1)
    } else {
        candidate_numbered(valid.drop_first(), n)
    }
}

/// Typing the number of a candidate picks it: among several candidates
/// numbered apart, a typed line that reads (trimmed) as candidate `k`'s
/// number makes candidate `k` active, whatever the current backend; with a
/// single candidate it is made active whatever was typed; and whatever is
/// made active is a candidate or the current backend.
pub proof fn lemma_typed_number_picks(
    valid: Seq<(int, Seq<char>)>,
    names: Seq<Seq<char>>,
    current: Seq<char>,
    input: Seq<char>,
    k: int,
)
    requires
        valid.len() >= 1,
    ensures
        valid.len() >= 2 && 0 <= k < valid.len() && (forall|a: int, b: int|
            0 <= a < b < valid.len() ==> (#[trigger] valid[a]).0 != (#[trigger] valid[b]).0)
            && parse_usize_spec(trim(input)) is Some && parse_usize_spec(trim(input))->0 as int
            == valid[k].0 ==> chosen_backend(
            valid,
            names,
            current,
            input,
        ) == valid[k].1,
        valid.len() == 1 ==> chosen_backend(valid, names, current, input) == valid[0].1,
        chosen_backend(valid, names, current, input) == current || exists|j: int|
            0 <= j < valid.len() && chosen_backend(valid, names, current, input) == (
            #[trigger] valid[j]).1,
{
    if 0 <= k < valid.len() && (forall|a: int, b: int|
        0 <= a < b < valid.len() ==> (#[trigger] valid[a]).0 != (#[trigger] valid[b]).0) {
        lemma_candidate_numbered_at(valid, valid[k].0, k);
    }
    if let Some(n) = parse_usize_spec(trim(input)) {
        lemma_candidate_numbered_found(valid, n as int);
    }
    assert(valid[0].1 == valid[0].1);
}

proof fn lemma_candidate_numbered_at(valid: Seq<(int, Seq<char>)>, n: int, k: int)
    requires
        0 <= k < valid.len(),
        valid[k].0 == n,
        forall|a: int, b: int|
            0 <= a < b < valid.len() ==> (#[trigger] valid[a]).0 != (#[trigger] valid[b]).0,
    ensures
        candidate_numbered(valid, n) == Some(valid[k].1),
    decreases valid.len(),
{
    if k > 0 {
        assert(valid[0].0 != valid[k].0);
        let rest = valid.drop_first();
        assert forall|a: int, b: int| 0 <= a < b < rest.len() implies (#[trigger] rest[a]).0 != (
        #[trigger] rest[b]).0 by {
            assert(rest[a] == valid[a + 1] && rest[b] == valid[b + 1]);
        }
        assert(rest[k - 1] == valid[k]);
        lemma_candidate_numbered_at(rest, n, k - 1);
    }
}

proof fn lemma_candidate_numbered_found(valid: Seq<(int, Seq<char>)>, n: int)
    ensures
        candidate_numbered(valid, n) matches Some(name) ==> exists|j: int|
            0 <= j < valid.len() && name == (#[trigger] valid[j]).1,
    decreases valid.len(),
{
    if valid.len() > 0 && valid[0].0 != n {
        let rest = valid.drop_first();
        lemma_candidate_numbered_found(rest, n);
        if candidate_numbered(rest, n) is Some {
            let j = choose|j: int| 0 <= j < rest.len() && candidate_numbered(rest, n)->0 == (
            #[trigger] rest[j]).1;
            assert(valid[j + 1] == rest[j]);
        }
    }
    if valid.len() > 0 && valid[0].0 == n {
        assert(valid[0].1 == valid[0].1);
    }
}

/// The backend made active. With a single candidate, that candidate, whatever
/// was typed. Otherwise the candidate whose number was typed; else the
/// current backend when it is named and is one of the listed names; else the
/// first candidate.
pub open spec fn chosen_backend(
    valid: Seq<(int, Seq<char>)>,
    names: Seq<Seq<char>>,
    current: Seq<char>,
    input: Seq<char>,
) -> Seq<char> {
    let typed = match parse_usize_spec(trim(input)) {
        Some(n) => candidate_numbered(valid, n as int),
        None => None,
    };
    if valid.len() == 1 {
        valid[0].1
    } else if typed is Some {
        typed->0
    } else if current.len() > 0 && names.contains(current) {
        current
    } else {
        valid[0].1
    }
}

/// The backend made active, given the candidates, all listed names, the
/// current backend and the typed line.
pub fn resolve_backend(
    valid: &[(usize, String)],
    names: &[String],
    current: &str,
    input: &str,
) -> (r: String)
    requires
        valid.len() >= 1,
    ensures
        r@ == chosen_backend(numbered_views(valid@), string_views(names@), current@, input@),
{
    if valid.len() == 1 {
        return valid[0].1.clone();
    }
    let chars = to_chars(input);
    let t = trim_chars(chars.as_slice());
    match parse_usize(t.as_slice()) {
        Some(n) => {
            let mut k: usize = 0;
            assert(numbered_views(valid@).skip(0) == numbered_views(valid@));
            while k < valid.len()
                invariant
                    k <= valid.len(),
                    parse_usize_spec(trim(input@)) == Some(n),
                    candidate_numbered(numbered_views(valid@), n as int) == candidate_numbered(
                        numbered_views(valid@).skip(k as int),
                        n as int,
                    ),
                decreases valid.len() - k,
            {
                assert(numbered_views(valid@).skip(k as int)[0] == (
                    valid@[k as int].0 as int,
                    valid@[k as int].1@,
                ));
                assert(numbered_views(valid@).skip(k as int).drop_first() == numbered_views(
                    valid@,
                ).skip(k + 1));
                if valid[k].0 == n {
                    return valid[k].1.clone();
                }
                k = k + 1;
            }
            assert(numbered_views(valid@).skip(k as int).len() == 0);
        },
        None => {},
    }
    let cur = to_chars(current);
    if cur.len() > 0 {
        let mut j: usize = 0;
        while j < names.len()
            invariant
                j <= names.len(),
                valid.len() >= 2,
                cur@ == current@,
                cur@.len() > 0,
                (match parse_usize_spec(trim(input@)) {
                    Some(n) => candidate_numbered(numbered_views(valid@), n as int),
                    None => None,
                }) is None,
                forall|m: int| 0 <= m < j ==> (#[trigger] names@[m])@ != cur@,
            decreases names.len() - j,
        {
            let nm = to_chars(names[j].as_str());
            if chars_eq(nm.as_slice(), cur.as_slice()) {
                assert(string_views(names@)[j as int] == current@);
                return String::from_str(current);
            }
            j = j + 1;
        }
        assert(!string_views(names@).contains(current@)) by {
            if string_views(names@).contains(current@) {
                let m = choose|m: int|
                    0 <= m < names.len() && string_views(names@)[m] == current@;
                assert(names@[m]@ == current@);
            }
        }
    }
    valid[0].1.clone()
}

/// What choosing the active backend comes to before anything is asked.
pub enum BackendPick {
    /// No backend has a base URL: there is nothing to choose.
    NoneConfigured,
    /// Exactly one backend can be chosen: it is made active without asking.
    Only(String),
    /// Several backends can be chosen: the user is asked.
    Ask,
}

/// Decides whether the active backend must be asked for: not when no
/// candidate exists (an error) or when exactly one does (that one).
pub fn pick_without_prompt(valid: &[(usize, String)]) -> (r: BackendPick)
    ensures
        r is NoneConfigured <==> valid.len() == 0,
        r is Ask <==> valid.len() >= 2,
        valid.len() == 1 ==> (r matches BackendPick::Only(name) && name@ == valid@[0].1@),
{
    if valid.len() == 0 {
        BackendPick::NoneConfigured
    } else if valid.len() == 1 {
        BackendPick::Only(valid[0].1.clone())
    } else {
        BackendPick::Ask
    }
}

/// The address of a discovery endpoint: the base URL without its trailing
/// `/` characters, then `path`.
pub fn discovery_url(base_url: &str, path: &str) -> (r: String)
    ensures
        r@ == strip_slashes(base_url@) + path@,
{
    let mut r = normalize_url(base_url);
    r.append(path);
    r
}

/// What a llama.cpp server's `/health` answer says of its models.
pub enum HealthModels {
    /// The answer settles it: these are the models found.
    Found(Vec<String>),
    /// The answer names no model: `/slots` is asked next.
    AskSlots,
}

/// Reads a llama.cpp `/health` answer: `None` when the server gave no usable
/// answer (no models are found), else the `model` field it held, if any. A
/// non-empty model name is the one model found; otherwise `/slots` is asked.
pub fn models_after_health(health: Option<Option<String>>) -> (r: HealthModels)
    ensures
        health is None ==> (r matches HealthModels::Found(v) && v.len() == 0),
        health matches Some(field) ==> (if field is Some && field->0@.len() > 0 {
            r matches HealthModels::Found(v) && v.len() == 1 && v@[0]@ == field->0@
        } else {
            r is AskSlots
        }),
{
    match health {
        None => HealthModels::Found(Vec::new()),
        Some(Some(m)) => {
            let chars = to_chars(m.as_str());
            if chars.len() > 0 {
                let mut v: Vec<String> = Vec::new();
                v.push(m);
                HealthModels::Found(v)
            } else {
                HealthModels::AskSlots
            }
        },
        Some(None) => HealthModels::AskSlots,
    }
}

} // verus!
