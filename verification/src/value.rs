use vstd::prelude::*;
use crate::key::Key;
use crate::key::KeyM;
use crate::key::KeyPath;
use crate::key::PathM;

verus! {

/// One arm's selector inside a plural construct: an exact non-negative count,
/// an inclusive range of counts, or the catch-all fallback.
#[derive(Clone, Copy, PartialEq, Eq, Structural, Debug)]
pub enum Selector {
    Exact(u64),
    Range(u64, u64),
    Fallback,
}

/// Ghost model of one translation entry.
#[verifier::ext_equal]
pub enum ValueM {
    Str(Seq<char>),
    Variable(KeyM),
    Component { key: KeyM, body: Box<ValueM> },
    Plural { count: KeyM, arms: Seq<(Selector, ValueM)> },
    ForeignKey { path: PathM, resolved: Option<Box<ValueM>> },
    Subkeys(Seq<(KeyM, ValueM)>),
}

/// One translation entry: a leaf literal, a typed placeholder, a placeholder
/// wrapping nested content, a numeric-range dispatch, a reference to another
/// key's value, or a nested object.
#[derive(PartialEq, Eq)]
pub enum ParsedValue {
    Str(String),
    Variable(Key),
    Component { key: Key, body: Box<ParsedValue> },
    Plural { count: Key, arms: Vec<(Selector, ParsedValue)> },
    ForeignKey { path: KeyPath, resolved: Option<Box<ParsedValue>> },
    Subkeys(Vec<(Key, ParsedValue)>),
}

/// The model of one entry.
pub open spec fn value_model(v: ParsedValue) -> ValueM
    decreases v,
{
    match v {
        ParsedValue::Str(s) => ValueM::Str(s@),
        ParsedValue::Variable(k) => ValueM::Variable(k@),
        ParsedValue::Component { key, body } => ValueM::Component {
            key: key@,
            body: Box::new(value_model(*body)),
        },
        ParsedValue::Plural { count, arms } => ValueM::Plural {
            count: count@,
            arms: arm_models(arms@),
        },
        ParsedValue::ForeignKey { path, resolved } => ValueM::ForeignKey {
            path: path@,
            resolved: match resolved {
                Some(b) => Some(Box::new(value_model(*b))),
                None => None,
            },
        },
        ParsedValue::Subkeys(entries) => ValueM::Subkeys(entry_models(entries@)),
    }
}

/// The models of a plural construct's arms, in order.
pub open spec fn arm_models(s: Seq<(Selector, ParsedValue)>) -> Seq<(Selector, ValueM)>
    decreases s,
{
    if s.len() == 0 {
        Seq::empty()
    } else {
        seq![(s[0].0, value_model(s[0].1))] + arm_models(s.subrange(1, s.len() as int))
    }
}

/// The models of a nested object's entries, in order.
pub open spec fn entry_models(s: Seq<(Key, ParsedValue)>) -> Seq<(KeyM, ValueM)>
    decreases s,
{
    if s.len() == 0 {
        Seq::empty()
    } else {
        seq![(s[0].0@, value_model(s[0].1))] + entry_models(s.subrange(1, s.len() as int))
    }
}

pub broadcast proof fn lemma_arm_models(s: Seq<(Selector, ParsedValue)>)
    ensures
        (#[trigger] arm_models(s)).len() == s.len(),
        forall|i: int| 0 <= i < s.len() ==> arm_models(s)[i] == (s[i].0, value_model(s[i].1)),
    decreases s,
{
    if s.len() > 0 {
        lemma_arm_models(s.subrange(1, s.len() as int));
    }
}

pub broadcast proof fn lemma_entry_models(s: Seq<(Key, ParsedValue)>)
    ensures
        (#[trigger] entry_models(s)).len() == s.len(),
        forall|i: int| 0 <= i < s.len() ==> entry_models(s)[i] == (s[i].0@, value_model(s[i].1)),
    decreases s,
{
    if s.len() > 0 {
        lemma_entry_models(s.subrange(1, s.len() as int));
    }
}

pub proof fn lemma_arm_models_push(s: Seq<(Selector, ParsedValue)>, p: (Selector, ParsedValue))
    ensures
        arm_models(s.push(p)) == arm_models(s).push((p.0, value_model(p.1))),
{
    broadcast use lemma_arm_models;

    assert(arm_models(s.push(p)) =~= arm_models(s).push((p.0, value_model(p.1))));
}

pub proof fn lemma_entry_models_push(s: Seq<(Key, ParsedValue)>, p: (Key, ParsedValue))
    ensures
        entry_models(s.push(p)) == entry_models(s).push((p.0@, value_model(p.1))),
{
    broadcast use lemma_entry_models;

    assert(entry_models(s.push(p)) =~= entry_models(s).push((p.0@, value_model(p.1))));
}

impl View for ParsedValue {
    type V = ValueM;

    open spec fn view(&self) -> ValueM {
        value_model(*self)
    }
}

/// A structural copy of one entry; later mutation of either tree does not
/// leak into the other.
#[verifier::loop_isolation(false)]
pub fn clone_value(v: &ParsedValue) -> (r: ParsedValue)
    ensures
        r@ == v@,
    decreases v,
{
    match v {
        ParsedValue::Str(s) => ParsedValue::Str(s.clone()),
        ParsedValue::Variable(k) => ParsedValue::Variable(k.clone()),
        ParsedValue::Component { key, body } => ParsedValue::Component {
            key: key.clone(),
            body: Box::new(clone_value(body)),
        },
        ParsedValue::Plural { count, arms } => {
            let mut out: Vec<(Selector, ParsedValue)> = Vec::new();
            let mut i: usize = 0;
            while i < arms.len()
                invariant
                    i <= arms@.len(),
                    out@.len() == i,
                    forall|j: int| 0 <= j < i ==> #[trigger] out@[j].0 == arms@[j].0
                        && out@[j].1@ == arms@[j].1@,
                decreases arms@.len() - i,
            {
                let arm = &arms[i];
                proof {
                    assert(decreases_to!(*v => (*v)->arms));
                    assert((*v)->arms == *arms);
                    assert(decreases_to!(*arms => arms@));
                    assert(decreases_to!(arms@ => arms@[i as int]));
                    assert(decreases_to!(arms@[i as int] => arms@[i as int].1));
                }
                out.push((arm.0, clone_value(&arm.1)));
                i = i + 1;
            }
            proof {
                broadcast use lemma_arm_models;

                assert(arm_models(out@) =~= arm_models(arms@));
            }
            ParsedValue::Plural { count: count.clone(), arms: out }
        },
        ParsedValue::ForeignKey { path, resolved } => {
            let r2 = match resolved {
                Some(b) => Some(Box::new(clone_value(b))),
                None => None,
            };
            ParsedValue::ForeignKey { path: path.clone(), resolved: r2 }
        },
        ParsedValue::Subkeys(entries) => {
            let mut out: Vec<(Key, ParsedValue)> = Vec::new();
            let mut i: usize = 0;
            while i < entries.len()
                invariant
                    i <= entries@.len(),
                    out@.len() == i,
                    forall|j: int| 0 <= j < i ==> #[trigger] out@[j].0@ == entries@[j].0@
                        && out@[j].1@ == entries@[j].1@,
                decreases entries@.len() - i,
            {
                let entry = &entries[i];
                proof {
                    assert(decreases_to!(*v => (*v)->0));
                    assert((*v)->0 == *entries);
                    assert(decreases_to!(*entries => entries@));
                    assert(decreases_to!(entries@ => entries@[i as int]));
                    assert(decreases_to!(entries@[i as int] => entries@[i as int].1));
                }
                out.push((entry.0.clone(), clone_value(&entry.1)));
                i = i + 1;
            }
            proof {
                broadcast use lemma_entry_models;

                assert(entry_models(out@) =~= entry_models(entries@));
            }
            ParsedValue::Subkeys(out)
        },
    }
}

impl Clone for ParsedValue {
    fn clone(&self) -> (r: Self)
        ensures
            r@ == self@,
    {
        clone_value(self)
    }
}

} // verus!
