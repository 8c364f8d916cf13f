use vstd::prelude::*;
use crate::error::Error;
use crate::error::ErrM;
use crate::key::spec_key_of;
use crate::key::valid_key_str;
use crate::key::Key;
use crate::key::KeyM;
use crate::key::KeyPath;
use crate::key::PathM;
use crate::raw::RawValue;
use crate::scan::find_char;
use crate::scan::find_char_exec;
use crate::scan::find_sep;
use crate::scan::find_sep_exec;
use crate::scan::lemma_find_char;
use crate::scan::parse_u64;
use crate::scan::spec_parse_u64;
use crate::scan::str_eq;
use crate::text::str_chars;
use crate::text::string_of_chars;
use crate::text::subvec;
use crate::value::arm_models;
use crate::value::entry_models;
use crate::value::lemma_arm_models_push;
use crate::value::lemma_entry_models_push;
use crate::value::ParsedValue;
use crate::value::Selector;
use crate::value::ValueM;

verus! {

// The value parser turns one raw resource document into the value
// representation, purely structurally. String leaves follow this crate's
// placeholder micro-grammar:
//   - `@:seg.seg` or `@:ns/seg.seg` is a reference to another key;
//   - `{{name}}` is a typed variable placeholder;
//   - anything else is a literal (the empty literal asks for the default
//     locale's value).
// Mappings holding a `$plural` entry are plural constructs whose other entry
// names are count selectors (`3`, `1..=4`, or `_`); mappings holding a
// `$component` entry wrap their `$body` entry; all other mappings are nested
// objects. Sequences are rejected.
/// Whether a string leaf is a reference to another key.
pub open spec fn spec_is_reference(s: Seq<char>) -> bool {
    s.len() >= 2 && s[0] == '@' && s[1] == ':'
}

/// Whether a string leaf is a variable placeholder.
pub open spec fn spec_is_variable(s: Seq<char>) -> bool {
    s.len() >= 4 && s[0] == '{' && s[1] == '{' && s[s.len() - 2] == '}' && s[s.len() - 1] == '}'
}

/// The dot-separated key segments of a reference path.
pub open spec fn spec_parse_segments(s: Seq<char>) -> Result<Seq<KeyM>, ErrM>
    decreases s.len(),
    via spec_parse_segments_dec
{
    match find_char(s, '.', 0) {
        Option::None => if valid_key_str(s) {
            Ok(seq![spec_key_of(s)])
        } else {
            Err(ErrM::InvalidKey(s))
        },
        Option::Some(i) => {
            let seg = s.subrange(0, i);
            if valid_key_str(seg) {
                match spec_parse_segments(s.subrange(i + 1, s.len() as int)) {
                    Ok(rest) => Ok(seq![spec_key_of(seg)] + rest),
                    Err(e) => Err(e),
                }
            } else {
                Err(ErrM::InvalidKey(seg))
            }
        },
    }
}

#[via_fn]
proof fn spec_parse_segments_dec(s: Seq<char>) {
    lemma_find_char(s, '.', 0);
}

/// A reference path: an optional namespace before `/`, then key segments.
pub open spec fn spec_parse_ref(s: Seq<char>) -> Result<PathM, ErrM> {
    match find_char(s, '/', 0) {
        Option::Some(i) => {
            let ns = s.subrange(0, i);
            if valid_key_str(ns) {
                match spec_parse_segments(s.subrange(i + 1, s.len() as int)) {
                    Ok(ks) => Ok(PathM { namespace: Some(spec_key_of(ns)), keys: ks }),
                    Err(e) => Err(e),
                }
            } else {
                Err(ErrM::InvalidKey(ns))
            }
        },
        Option::None => match spec_parse_segments(s) {
            Ok(ks) => Ok(PathM { namespace: None, keys: ks }),
            Err(e) => Err(e),
        },
    }
}

/// An arm name read as a selector: the catch-all `_`, an inclusive range
/// `lo..=hi` with `lo <= hi`, or an exact count.
pub open spec fn spec_parse_selector(s: Seq<char>) -> Option<Selector> {
    if s.len() == 1 && s[0] == '_' {
        Some(Selector::Fallback)
    } else {
        match find_sep(s, 0) {
            Option::Some(i) => {
                let lo = spec_parse_u64(s.subrange(0, i));
                let hi = spec_parse_u64(s.subrange(i + 3, s.len() as int));
                if lo is Some && hi is Some && lo.unwrap() <= hi.unwrap() {
                    Some(Selector::Range(lo.unwrap(), hi.unwrap()))
                } else {
                    None
                }
            },
            Option::None => match spec_parse_u64(s) {
                Some(v) => Some(Selector::Exact(v)),
                None => None,
            },
        }
    }
}

/// The first entry of a raw mapping under the given name.
pub open spec fn spec_lookup(entries: Seq<(String, RawValue)>, name: Seq<char>) -> Option<RawValue>
    decreases entries.len(),
{
    if entries.len() == 0 {
        None
    } else if entries[0].0@ == name {
        Some(entries[0].1)
    } else {
        spec_lookup(entries.subrange(1, entries.len() as int), name)
    }
}

/// A string leaf classified by the placeholder micro-grammar.
pub open spec fn spec_parse_scalar(s: Seq<char>) -> Result<ValueM, ErrM> {
    if spec_is_reference(s) {
        match spec_parse_ref(s.subrange(2, s.len() as int)) {
            Ok(p) => Ok(ValueM::ForeignKey { path: p, resolved: None }),
            Err(e) => Err(e),
        }
    } else if spec_is_variable(s) {
        let inner = s.subrange(2, s.len() - 2);
        if valid_key_str(inner) {
            Ok(ValueM::Variable(spec_key_of(inner)))
        } else {
            Err(ErrM::InvalidKey(inner))
        }
    } else {
        Ok(ValueM::Str(s))
    }
}

/// What parsing one raw node yields: the parse is purely structural and
/// neither resolves references nor validates plural arms against each other.
pub open spec fn spec_parse(raw: RawValue, path: PathM) -> Result<ValueM, ErrM>
    decreases raw,
{
    match raw {
        RawValue::Scalar(s) => spec_parse_scalar(s@),
        RawValue::Sequence(_) => Err(ErrM::UnexpectedSequence(path)),
        RawValue::Mapping(entries) => {
            if spec_lookup(entries@, "$plural"@) is Some {
                match spec_lookup(entries@, "$plural"@) {
                    Some(RawValue::Scalar(cs)) => if valid_key_str(cs@) {
                        match spec_parse_arms(entries@, path) {
                            Ok(arms) => Ok(ValueM::Plural { count: spec_key_of(cs@), arms }),
                            Err(e) => Err(e),
                        }
                    } else {
                        Err(ErrM::InvalidKey(cs@))
                    },
                    _ => Err(ErrM::UnexpectedSequence(path)),
                }
            } else if spec_lookup(entries@, "$component"@) is Some {
                match spec_lookup(entries@, "$component"@) {
                    Some(RawValue::Scalar(ns)) => if valid_key_str(ns@) {
                        match spec_parse_body(entries@, path) {
                            Ok(b) => Ok(
                                ValueM::Component { key: spec_key_of(ns@), body: Box::new(b) },
                            ),
                            Err(e) => Err(e),
                        }
                    } else {
                        Err(ErrM::InvalidKey(ns@))
                    },
                    _ => Err(ErrM::UnexpectedSequence(path)),
                }
            } else {
                match spec_parse_entries(entries@, path) {
                    Ok(es) => Ok(ValueM::Subkeys(es)),
                    Err(e) => Err(e),
                }
            }
        },
    }
}

/// The arms of a plural construct: every entry but the `$plural` marker, in
/// authored order.
pub open spec fn spec_parse_arms(entries: Seq<(String, RawValue)>, path: PathM) -> Result<
    Seq<(Selector, ValueM)>,
    ErrM,
>
    decreases entries,
{
    if entries.len() == 0 {
        Ok(Seq::empty())
    } else {
        let name = entries[0].0@;
        let rest = entries.subrange(1, entries.len() as int);
        if name == "$plural"@ {
            spec_parse_arms(rest, path)
        } else {
            match spec_parse_selector(name) {
                Option::None => Err(ErrM::InvalidPluralSelector(name)),
                Option::Some(sel) => match spec_parse(entries[0].1, path) {
                    Ok(v) => match spec_parse_arms(rest, path) {
                        Ok(arms) => Ok(seq![(sel, v)] + arms),
                        Err(e) => Err(e),
                    },
                    Err(e) => Err(e),
                },
            }
        }
    }
}

/// The content a component wraps: its first `$body` entry, or the empty
/// literal when there is none.
pub open spec fn spec_parse_body(entries: Seq<(String, RawValue)>, path: PathM) -> Result<
    ValueM,
    ErrM,
>
    decreases entries,
{
    if entries.len() == 0 {
        Ok(ValueM::Str(Seq::empty()))
    } else if entries[0].0@ == "$body"@ {
        spec_parse(entries[0].1, path)
    } else {
        spec_parse_body(entries.subrange(1, entries.len() as int), path)
    }
}

/// The entries of a nested object, each key validated, in authored order.
pub open spec fn spec_parse_entries(entries: Seq<(String, RawValue)>, path: PathM) -> Result<
    Seq<(KeyM, ValueM)>,
    ErrM,
>
    decreases entries,
{
    if entries.len() == 0 {
        Ok(Seq::empty())
    } else {
        let nm = entries[0].0@;
        let rest = entries.subrange(1, entries.len() as int);
        if valid_key_str(nm) {
            let k = spec_key_of(nm);
            let cpath = PathM { namespace: path.namespace, keys: path.keys.push(k) };
            match spec_parse(entries[0].1, cpath) {
                Ok(v) => match spec_parse_entries(rest, path) {
                    Ok(es) => Ok(seq![(k, v)] + es),
                    Err(e) => Err(e),
                },
                Err(e) => Err(e),
            }
        } else {
            Err(ErrM::InvalidKey(nm))
        }
    }
}

/// The model of a parse outcome.
pub open spec fn value_res(r: Result<ParsedValue, Error>) -> Result<ValueM, ErrM> {
    match r {
        Ok(v) => Ok(v@),
        Err(e) => Err(e@),
    }
}

/// The models of validated keys, in order.
pub open spec fn keys_model(ks: Seq<Key>) -> Seq<KeyM> {
    Seq::new(ks.len(), |i: int| ks[i]@)
}

/// The model of a path-parse outcome.
pub open spec fn path_res(r: Result<KeyPath, Error>) -> Result<PathM, ErrM> {
    match r {
        Ok(p) => Ok(p@),
        Err(e) => Err(e@),
    }
}

/// Reads an arm name as a selector.
fn parse_selector(v: &Vec<char>) -> (r: Option<Selector>)
    ensures
        r == spec_parse_selector(v@),
{
    let n = v.len();
    if n == 1 && v[0] == '_' {
        return Some(Selector::Fallback);
    }
    proof {
        assert(v@.subrange(0, n as int) =~= v@);
    }
    match find_sep_exec(v, 0) {
        Some(i) => {
            let lo = parse_u64(v, 0, i);
            let hi = parse_u64(v, i + 3, n);
            match (lo, hi) {
                (Some(l), Some(h)) => if l <= h {
                    Some(Selector::Range(l, h))
                } else {
                    None
                },
                _ => None,
            }
        },
        None => match parse_u64(v, 0, n) {
            Some(x) => Some(Selector::Exact(x)),
            None => None,
        },
    }
}

/// Reads the dot-separated segments of a reference path.
fn parse_segments(v: &Vec<char>) -> (r: Result<Vec<Key>, Error>)
    ensures
        r matches Ok(ks) ==> spec_parse_segments(v@) == Ok::<_, ErrM>(keys_model(ks@)),
        r matches Err(e) ==> spec_parse_segments(v@) == Err::<Seq<KeyM>, _>(e@),
    decreases v@.len(),
{
    match find_char_exec(v, '.', 0) {
        None => {
            let seg = string_of_chars(v, 0, v.len());
            proof {
                assert(seg@ =~= v@);
            }
            match Key::try_new(seg.as_str()) {
                Ok(k) => {
                    let mut out: Vec<Key> = Vec::new();
                    out.push(k);
                    proof {
                        assert(keys_model(out@) =~= seq![spec_key_of(v@)]);
                    }
                    Ok(out)
                },
                Err(e) => Err(e),
            }
        },
        Some(i) => {
            let seg = string_of_chars(v, 0, i);
            match Key::try_new(seg.as_str()) {
                Ok(k) => {
                    let nv = v.len();
                    let rest = subvec(v, i + 1, nv);
                    match parse_segments(&rest) {
                        Ok(ks) => {
                            let mut out = ks;
                            let ghost ks_old = out@;
                            let ghost km = k@;
                            out.insert(0, k);
                            proof {
                                assert(keys_model(out@) =~= seq![km] + keys_model(ks_old));
                            }
                            Ok(out)
                        },
                        Err(e) => Err(e),
                    }
                },
                Err(e) => Err(e),
            }
        },
    }
}

/// Reads a whole reference path (after its `@:` mark).
fn parse_ref(v: &Vec<char>) -> (r: Result<KeyPath, Error>)
    ensures
        path_res(r) == spec_parse_ref(v@),
{
    match find_char_exec(v, '/', 0) {
        Some(i) => {
            let seg = string_of_chars(v, 0, i);
            match Key::try_new(seg.as_str()) {
                Ok(nk) => {
                    let nv = v.len();
                    let rest = subvec(v, i + 1, nv);
                    match parse_segments(&rest) {
                        Ok(ks) => {
                            let kp = KeyPath { namespace: Some(nk), keys: ks };
                            proof {
                                assert(kp@.keys =~= keys_model(kp.keys@));
                            }
                            Ok(kp)
                        },
                        Err(e) => Err(e),
                    }
                },
                Err(e) => Err(e),
            }
        },
        None => {
            match parse_segments(v) {
                Ok(ks) => {
                    let kp = KeyPath { namespace: None, keys: ks };
                    proof {
                        assert(kp@.keys =~= keys_model(kp.keys@));
                    }
                    Ok(kp)
                },
                Err(e) => Err(e),
            }
        },
    }
}

/// Classifies one string leaf by the placeholder micro-grammar.
fn parse_scalar(s: &String) -> (r: Result<ParsedValue, Error>)
    ensures
        value_res(r) == spec_parse_scalar(s@),
{
    let chars = str_chars(s.as_str());
    let n = chars.len();
    if n >= 2 && chars[0] == '@' && chars[1] == ':' {
        let rest = subvec(&chars, 2, n);
        match parse_ref(&rest) {
            Ok(p) => Ok(ParsedValue::ForeignKey { path: p, resolved: None }),
            Err(e) => Err(e),
        }
    } else if n >= 4 && chars[0] == '{' && chars[1] == '{' && chars[n - 2] == '}' && chars[n - 1]
        == '}' {
        let inner = string_of_chars(&chars, 2, n - 2);
        match Key::try_new(inner.as_str()) {
            Ok(k) => Ok(ParsedValue::Variable(k)),
            Err(e) => Err(e),
        }
    } else {
        Ok(ParsedValue::Str(s.clone()))
    }
}

/// Finds the first entry of a raw mapping under the given name.
#[verifier::loop_isolation(false)]
fn lookup_entry<'a>(entries: &'a Vec<(String, RawValue)>, name: &str) -> (r: Option<&'a RawValue>)
    ensures
        match r {
            Some(v) => spec_lookup(entries@, name@) == Some(*v),
            None => spec_lookup(entries@, name@) is None,
        },
{
    let n = entries.len();
    proof {
        assert(entries@.subrange(0, n as int) =~= entries@);
    }
    let mut i: usize = 0;
    while i < n
        invariant
            i <= n,
            n == entries@.len(),
            spec_lookup(entries@, name@) == spec_lookup(
                entries@.subrange(i as int, n as int),
                name@,
            ),
        decreases n - i,
    {
        proof {
            let tail = entries@.subrange(i as int, n as int);
            assert(tail[0] == entries@[i as int]);
            assert(tail.subrange(1, tail.len() as int) =~= entries@.subrange(
                i as int + 1,
                n as int,
            ));
        }
        if str_eq(entries[i].0.as_str(), name) {
            return Some(&entries[i].1);
        }
        i = i + 1;
    }
    proof {
        assert(entries@.subrange(n as int, n as int) =~= Seq::<(String, RawValue)>::empty());
    }
    None
}

/// Parses one raw node at the given path. Purely structural: no reference is
/// resolved and no plural construct is validated here; those are later,
/// separate passes over all locales' parsed trees.
#[verifier::loop_isolation(false)]
pub fn parse_value(raw: &RawValue, path: &KeyPath) -> (r: Result<ParsedValue, Error>)
    ensures
        value_res(r) == spec_parse(*raw, path@),
    decreases *raw,
{
    match raw {
        RawValue::Scalar(s) => parse_scalar(s),
        RawValue::Sequence(_) => Err(Error::UnexpectedSequence(path.clone())),
        RawValue::Mapping(entries) => {
            let n = entries.len();
            if let Some(pv) = lookup_entry(entries, "$plural") {
                match pv {
                    RawValue::Scalar(cs) => {
                        match Key::try_new(cs.as_str()) {
                            Ok(count) => {
                                let mut out: Vec<(Selector, ParsedValue)> = Vec::new();
                                proof {
                                    assert(entries@.subrange(0, n as int) =~= entries@);
                                }
                                let mut i: usize = 0;
                                while i < n
                                    invariant
                                        i <= n,
                                        spec_parse_arms(entries@, path@) == (match spec_parse_arms(
                                            entries@.subrange(i as int, n as int),
                                            path@,
                                        ) {
                                            Ok(rest) => Ok::<_, ErrM>(arm_models(out@) + rest),
                                            Err(e) => Err(e),
                                        }),
                                    decreases n - i,
                                {
                                    let ghost tail = entries@.subrange(i as int, n as int);
                                    proof {
                                        assert(tail[0] == entries@[i as int]);
                                        assert(tail.subrange(1, tail.len() as int)
                                            =~= entries@.subrange(i as int + 1, n as int));
                                    }
                                    let name = &entries[i].0;
                                    if str_eq(name.as_str(), "$plural") {
                                    } else {
                                        let nchars = str_chars(name.as_str());
                                        match parse_selector(&nchars) {
                                            None => {
                                                return Err(
                                                    Error::InvalidPluralSelector(name.clone()),
                                                );
                                            },
                                            Some(sel) => {
                                                proof {
                                                    assert(decreases_to!(*raw => *entries));
                                                    assert(decreases_to!(*entries => entries@));
                                                    assert(decreases_to!(entries@ => entries@[i as int]));
                                                    assert(decreases_to!(entries@[i as int] => entries@[i as int].1));
                                                }
                                                match parse_value(&entries[i].1, path) {
                                                    Ok(v) => {
                                                        let ghost out_old = out@;
                                                        let ghost vm = v@;
                                                        out.push((sel, v));
                                                        proof {
                                                            lemma_arm_models_push(
                                                                out_old,
                                                                out@.last(),
                                                            );
                                                            assert(arm_models(out@) =~= arm_models(
                                                                out_old,
                                                            ) + seq![(sel, vm)]);
                                                            let sr = spec_parse_arms(
                                                                entries@.subrange(
                                                                    i as int + 1,
                                                                    n as int,
                                                                ),
                                                                path@,
                                                            );
                                                            match sr {
                                                                Ok(rest) => {
                                                                    assert(arm_models(out_old)
                                                                        + (seq![(sel, vm)] + rest)
                                                                        =~= arm_models(out@)
                                                                        + rest);
                                                                },
                                                                Err(_) => {},
                                                            }
                                                        }
                                                    },
                                                    Err(e) => {
                                                        return Err(e);
                                                    },
                                                }
                                            },
                                        }
                                    }
                                    i = i + 1;
                                }
                                proof {
                                    assert(entries@.subrange(n as int, n as int) =~= Seq::<
                                        (String, RawValue),
                                    >::empty());
                                    assert(arm_models(out@) + Seq::<(Selector, ValueM)>::empty()
                                        =~= arm_models(out@));
                                }
                                Ok(ParsedValue::Plural { count, arms: out })
                            },
                            Err(e) => Err(e),
                        }
                    },
                    _ => Err(Error::UnexpectedSequence(path.clone())),
                }
            } else if let Some(cv) = lookup_entry(entries, "$component") {
                match cv {
                    RawValue::Scalar(ns) => {
                        match Key::try_new(ns.as_str()) {
                            Ok(ck) => {
                                proof {
                                    assert(entries@.subrange(0, n as int) =~= entries@);
                                }
                                let mut i: usize = 0;
                                while i < n
                                    invariant
                                        i <= n,
                                        spec_parse_body(entries@, path@) == spec_parse_body(
                                            entries@.subrange(i as int, n as int),
                                            path@,
                                        ),
                                    decreases n - i,
                                {
                                    let ghost tail = entries@.subrange(i as int, n as int);
                                    proof {
                                        assert(tail[0] == entries@[i as int]);
                                        assert(tail.subrange(1, tail.len() as int)
                                            =~= entries@.subrange(i as int + 1, n as int));
                                    }
                                    if str_eq(entries[i].0.as_str(), "$body") {
                                        proof {
                                            assert(decreases_to!(*raw => *entries));
                                            assert(decreases_to!(*entries => entries@));
                                            assert(decreases_to!(entries@ => entries@[i as int]));
                                            assert(decreases_to!(entries@[i as int] => entries@[i as int].1));
                                        }
                                        match parse_value(&entries[i].1, path) {
                                            Ok(b) => {
                                                return Ok(
                                                    ParsedValue::Component {
                                                        key: ck,
                                                        body: Box::new(b),
                                                    },
                                                );
                                            },
                                            Err(e) => {
                                                return Err(e);
                                            },
                                        }
                                    }
                                    i = i + 1;
                                }
                                proof {
                                    assert(entries@.subrange(n as int, n as int) =~= Seq::<
                                        (String, RawValue),
                                    >::empty());
                                    assert(spec_parse_body(entries@, path@) == Ok::<ValueM, ErrM>(
                                        ValueM::Str(Seq::<char>::empty()),
                                    ));
                                }
                                let body_str = String::new();
                                let empty_body = ParsedValue::Str(body_str);
                                proof {
                                    assert(empty_body@ == ValueM::Str(Seq::<char>::empty()));
                                }
                                Ok(ParsedValue::Component { key: ck, body: Box::new(empty_body) })
                            },
                            Err(e) => Err(e),
                        }
                    },
                    _ => Err(Error::UnexpectedSequence(path.clone())),
                }
            } else {
                let mut out: Vec<(Key, ParsedValue)> = Vec::new();
                proof {
                    assert(entries@.subrange(0, n as int) =~= entries@);
                }
                let mut i: usize = 0;
                while i < n
                    invariant
                        i <= n,
                        spec_parse_entries(entries@, path@) == (match spec_parse_entries(
                            entries@.subrange(i as int, n as int),
                            path@,
                        ) {
                            Ok(rest) => Ok::<_, ErrM>(entry_models(out@) + rest),
                            Err(e) => Err(e),
                        }),
                    decreases n - i,
                {
                    let ghost tail = entries@.subrange(i as int, n as int);
                    proof {
                        assert(tail[0] == entries@[i as int]);
                        assert(tail.subrange(1, tail.len() as int) =~= entries@.subrange(
                            i as int + 1,
                            n as int,
                        ));
                    }
                    let name = &entries[i].0;
                    match Key::try_new(name.as_str()) {
                        Err(e) => {
                            return Err(e);
                        },
                        Ok(k) => {
                            let mut cp = path.clone();
                            cp.push_key(k.clone());
                            proof {
                                assert(cp@ =~= PathM {
                                    namespace: path@.namespace,
                                    keys: path@.keys.push(k@),
                                });
                                assert(decreases_to!(*raw => *entries));
                                assert(decreases_to!(*entries => entries@));
                                assert(decreases_to!(entries@ => entries@[i as int]));
                                assert(decreases_to!(entries@[i as int] => entries@[i as int].1));
                            }
                            match parse_value(&entries[i].1, &cp) {
                                Ok(v) => {
                                    let ghost out_old = out@;
                                    let ghost vm = v@;
                                    let ghost km = k@;
                                    out.push((k, v));
                                    proof {
                                        lemma_entry_models_push(out_old, out@.last());
                                        assert(entry_models(out@) =~= entry_models(out_old)
                                            + seq![(km, vm)]);
                                        let sr = spec_parse_entries(
                                            entries@.subrange(i as int + 1, n as int),
                                            path@,
                                        );
                                        match sr {
                                            Ok(rest) => {
                                                assert(entry_models(out_old) + (seq![(km, vm)]
                                                    + rest) =~= entry_models(out@) + rest);
                                            },
                                            Err(_) => {},
                                        }
                                    }
                                },
                                Err(e) => {
                                    return Err(e);
                                },
                            }
                        },
                    }
                    i = i + 1;
                }
                proof {
                    assert(entries@.subrange(n as int, n as int) =~= Seq::<
                        (String, RawValue),
                    >::empty());
                    assert(entry_models(out@) + Seq::<(KeyM, ValueM)>::empty() =~= entry_models(
                        out@,
                    ));
                }
                Ok(ParsedValue::Subkeys(out))
            }
        },
    }
}

} // verus!
