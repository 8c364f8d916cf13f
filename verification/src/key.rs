use vstd::prelude::*;
use vstd::std_specs::cmp::PartialEqSpec;
use crate::error::Error;
use crate::text::replace_dashes;
use crate::text::replace_dashes_chars;
use crate::text::str_chars;
use crate::text::string_of_chars;
use crate::text::trim_chars;
use crate::text::trim_spec;

verus! {

/// Names the set of strings that `syn::parse_str::<syn::Ident>` accepts:
/// the valid bare identifiers of the target binding language. The exact set
/// (Unicode identifier rules minus the keyword list) is the outside parser's.
pub uninterp spec fn is_valid_identifier(s: Seq<char>) -> bool;

/// Relies on `syn::parse_str::<syn::Ident>`: it accepts a string if and only
/// if the whole string is a valid bare identifier, and its outcome depends on
/// the characters of the string alone.
#[verifier::external_body]
fn parse_identifier(s: &str) -> (r: bool)
    ensures
        r == is_valid_identifier(s@),
{
    syn::parse_str::<syn::Ident>(s).is_ok()
}

/// Ghost model of a key: its authored name and its derived identifier.
#[verifier::ext_equal]
pub struct KeyM {
    pub name: Seq<char>,
    pub ident: Seq<char>,
}

/// The key a raw string yields: the trimmed name, and the identifier derived
/// from it by replacing `-` with `_`.
pub open spec fn spec_key_of(raw: Seq<char>) -> KeyM {
    KeyM { name: trim_spec(raw), ident: replace_dashes(trim_spec(raw)) }
}

/// Whether a raw string can become a key at all.
pub open spec fn valid_key_str(raw: Seq<char>) -> bool {
    is_valid_identifier(replace_dashes(trim_spec(raw)))
}

/// A validated translation key: the raw `name` as authored (trimmed), and the
/// identifier derived from it by replacing `-` with `_`. Keys compare by
/// `name` alone; the identifier is a derived, non-semantic projection.
#[derive(Debug)]
pub struct Key {
    pub name: String,
    pub ident: String,
}

impl View for Key {
    type V = KeyM;

    open spec fn view(&self) -> KeyM {
        KeyM { name: self.name@, ident: self.ident@ }
    }
}

impl Key {
    /// The construction invariant: the identifier is derived from the name and
    /// is a valid bare identifier.
    pub open spec fn wf(&self) -> bool {
        self.ident@ == replace_dashes(self.name@) && is_valid_identifier(self.ident@)
    }

    /// Trims the raw string, derives the identifier candidate by replacing `-`
    /// with `_`, and succeeds exactly when that candidate is a valid bare
    /// identifier.
    pub fn new(name: &str) -> (r: Option<Key>)
        ensures
            r is Some <==> valid_key_str(name@),
            r matches Some(k) ==> k@ == spec_key_of(name@) && k.wf(),
    {
        let chars = str_chars(name);
        let trimmed = trim_chars(&chars);
        let replaced = replace_dashes_chars(&trimmed);
        let name_s = string_of_chars(&trimmed, 0, trimmed.len());
        let ident_s = string_of_chars(&replaced, 0, replaced.len());
        proof {
            assert(name_s@ =~= trim_spec(name@));
            assert(ident_s@ =~= replace_dashes(trim_spec(name@)));
        }
        if parse_identifier(ident_s.as_str()) {
            let k = Key { name: name_s, ident: ident_s };
            proof {
                assert(k@ =~= spec_key_of(name@));
            }
            Some(k)
        } else {
            None
        }
    }

    /// The fallible surface used by deserialization: turns the miss into an
    /// `InvalidKey` error carrying the offending raw string.
    pub fn try_new(name: &str) -> (r: Result<Key, Error>)
        ensures
            r is Ok <==> valid_key_str(name@),
            r matches Ok(k) ==> k@ == spec_key_of(name@) && k.wf(),
            r matches Err(e) ==> e@ == crate::error::ErrM::InvalidKey(name@),
    {
        match Key::new(name) {
            Some(k) => Ok(k),
            None => Err(Error::InvalidKey(name.to_owned())),
        }
    }
}

impl PartialEq for Key {
    /// Two keys are interchangeable exactly when their names are equal; the
    /// derived identifier does not take part.
    fn eq(&self, other: &Self) -> (r: bool) {
        self.name == other.name
    }
}

impl vstd::std_specs::cmp::PartialEqSpecImpl for Key {
    open spec fn obeys_eq_spec() -> bool {
        true
    }

    open spec fn eq_spec(&self, other: &Self) -> bool {
        self.name@ == other.name@
    }
}

impl Eq for Key {}

impl Clone for Key {
    fn clone(&self) -> (r: Self)
        ensures
            r@ == self@,
    {
        Key { name: self.name.clone(), ident: self.ident.clone() }
    }
}

/// Two keys built from name-equal strings are equal, whatever either derived
/// identifier holds: key equality is by `name` alone.
pub proof fn lemma_key_eq_by_name(a: Key, b: Key)
    requires
        a.name@ == b.name@,
    ensures
        a.eq_spec(&b),
        b.eq_spec(&a),
{
}

/// Ghost model of a nesting path.
#[verifier::ext_equal]
pub struct PathM {
    pub namespace: Option<KeyM>,
    pub keys: Seq<KeyM>,
}

/// The nesting path to a value: the keys walked from the top of the tree,
/// optionally prefixed by a namespace key. Used for diagnostics.
#[derive(PartialEq, Eq, Debug)]
pub struct KeyPath {
    pub namespace: Option<Key>,
    pub keys: Vec<Key>,
}

impl View for KeyPath {
    type V = PathM;

    open spec fn view(&self) -> PathM {
        PathM {
            namespace: match self.namespace {
                Some(k) => Some(k@),
                None => None,
            },
            keys: Seq::new(self.keys@.len(), |i: int| self.keys@[i]@),
        }
    }
}

impl KeyPath {
    /// An empty path under the given namespace.
    pub fn new(namespace: Option<Key>) -> (r: KeyPath)
        ensures
            r@.keys == Seq::<KeyM>::empty(),
            namespace matches Some(k) ==> r@.namespace == Some(k@),
            namespace is None ==> r@.namespace is None,
    {
        let r = KeyPath { namespace, keys: Vec::new() };
        proof {
            assert(r@.keys =~= Seq::<KeyM>::empty());
        }
        r
    }

    /// Descend one level: append a key to the path.
    pub fn push_key(&mut self, key: Key)
        ensures
            final(self)@.keys == old(self)@.keys.push(key@),
            final(self)@.namespace == old(self)@.namespace,
    {
        self.keys.push(key);
        proof {
            assert(self@.keys =~= old(self)@.keys.push(key@));
        }
    }

    /// Come back up one level: drop the last key of the path.
    pub fn pop_key(&mut self) -> (r: Option<Key>)
        ensures
            final(self)@.namespace == old(self)@.namespace,
            old(self)@.keys.len() == 0 ==> r is None && final(self)@.keys == old(self)@.keys,
            old(self)@.keys.len() > 0 ==> {
                &&& final(self)@.keys == old(self)@.keys.drop_last()
                &&& r matches Some(k) && k@ == old(self)@.keys.last()
            },
    {
        let r = self.keys.pop();
        proof {
            if old(self)@.keys.len() > 0 {
                assert(self@.keys =~= old(self)@.keys.drop_last());
            } else {
                assert(self@.keys =~= old(self)@.keys);
            }
        }
        r
    }
}

impl Clone for KeyPath {
    fn clone(&self) -> (r: Self)
        ensures
            r@ == self@,
    {
        let namespace = match &self.namespace {
            Some(k) => Some(k.clone()),
            None => None,
        };
        let mut keys: Vec<Key> = Vec::new();
        let mut i: usize = 0;
        while i < self.keys.len()
            invariant
                i <= self.keys@.len(),
                keys@.len() == i,
                forall|j: int| 0 <= j < i ==> keys@[j]@ == self.keys@[j]@,
            decreases self.keys@.len() - i,
        {
            keys.push(self.keys[i].clone());
            i = i + 1;
        }
        let r = KeyPath { namespace, keys };
        proof {
            assert(r@ =~= self@);
        }
        r
    }
}

/// What a string being deserialized into a key stands for; the classification
/// seeds the error message a mismatch produces.
pub enum KeySeed<'a> {
    LocaleName,
    Namespace,
    LocaleKey { locale: &'a str, namespace: Option<&'a str> },
}

impl<'a> KeySeed<'a> {
    /// A string is visited by validating it as a key, whatever it stands for.
    pub fn visit_str(self, v: &str) -> (r: Result<Key, Error>)
        ensures
            r is Ok <==> valid_key_str(v@),
            r matches Ok(k) ==> k@ == spec_key_of(v@) && k.wf(),
            r matches Err(e) ==> e@ == crate::error::ErrM::InvalidKey(v@),
    {
        Key::try_new(v)
    }

    /// What this seed expects of its input, for diagnostics.
    pub fn expecting(&self) -> (r: &'static str)
        ensures
            self is LocaleName ==> r@
                == "a string representing a locale that can be used as a valid rust identifier"@,
            self is LocaleKey ==> r@
                == "a string representing a locale key that can be used as a valid rust identifier"@,
            self is Namespace ==> r@
                == "a string representing a namespace key that can be used as a valid rust identifier"@,
    {
        match self {
            KeySeed::LocaleName => {
                "a string representing a locale that can be used as a valid rust identifier"
            },
            KeySeed::LocaleKey { .. } => {
                "a string representing a locale key that can be used as a valid rust identifier"
            },
            KeySeed::Namespace => {
                "a string representing a namespace key that can be used as a valid rust identifier"
            },
        }
    }
}

/// Deserializes a whole sequence of raw strings into keys with one shared
/// seed; the first invalid entry fails the lot.
pub struct KeyVecSeed<'a>(pub KeySeed<'a>);

impl<'a> KeyVecSeed<'a> {
    /// Visits each raw string in order; succeeds exactly when every raw string
    /// can become a key.
    pub fn visit_seq(self, raw: &Vec<String>) -> (r: Result<Vec<Key>, Error>)
        ensures
            r is Ok <==> (forall|i: int| 0 <= i < raw@.len() ==> valid_key_str(#[trigger] raw@[i]@)),
            r matches Ok(ks) ==> {
                &&& ks@.len() == raw@.len()
                &&& forall|i: int| 0 <= i < ks@.len() ==> #[trigger] ks@[i]@ == spec_key_of(raw@[i]@)
            },
    {
        let mut ks: Vec<Key> = Vec::new();
        let mut i: usize = 0;
        while i < raw.len()
            invariant
                i <= raw@.len(),
                ks@.len() == i,
                forall|j: int| 0 <= j < i ==> valid_key_str(#[trigger] raw@[j]@),
                forall|j: int| 0 <= j < i ==> #[trigger] ks@[j]@ == spec_key_of(raw@[j]@),
            decreases raw@.len() - i,
        {
            match Key::try_new(raw[i].as_str()) {
                Ok(k) => {
                    ks.push(k);
                },
                Err(e) => {
                    return Err(e);
                },
            }
            i = i + 1;
        }
        Ok(ks)
    }
}

} // verus!
