use vstd::prelude::*;
use crate::error::Error;
use crate::error::ErrM;
use crate::key::Key;
use crate::key::KeyM;
use crate::key::KeyPath;
use crate::key::PathM;
use crate::parse::parse_value;
use crate::parse::spec_parse;
use crate::raw::RawValue;
use crate::value::entry_models;
use crate::value::lemma_entry_models;
use crate::value::ParsedValue;
use crate::value::ValueM;

verus! {

/// Ghost model of one locale's tree.
#[verifier::ext_equal]
pub struct LocaleM {
    pub name: Seq<char>,
    pub keys: Seq<(KeyM, ValueM)>,
}

/// One locale: its identifier and its top-level key mapping. Created by the
/// parser, rewritten by foreign-key resolution, read by the merge engine.
#[derive(PartialEq, Eq)]
pub struct Locale {
    pub top_locale_name: Key,
    pub keys: Vec<(Key, ParsedValue)>,
}

impl View for Locale {
    type V = LocaleM;

    open spec fn view(&self) -> LocaleM {
        LocaleM { name: self.top_locale_name.name@, keys: entry_models(self.keys@) }
    }
}

/// What one locale's tree is, given its raw document: the document must be a
/// mapping free of plural or component markers at its top level.
pub open spec fn spec_locale_keys(raw: RawValue, root: PathM) -> Result<Seq<(KeyM, ValueM)>, ErrM> {
    match spec_parse(raw, root) {
        Ok(ValueM::Subkeys(es)) => Ok(es),
        Ok(_) => Err(ErrM::UnexpectedSequence(root)),
        Err(e) => Err(e),
    }
}

impl Locale {
    /// Parses one locale's raw document into its tree. The namespace key, if
    /// any, prefixes every diagnostic path.
    pub fn new(name: Key, namespace: Option<&Key>, raw: &RawValue) -> (r: Result<Locale, Error>)
        ensures
            ({
                let root = PathM {
                    namespace: match namespace {
                        Some(k) => Some(k@),
                        None => None::<KeyM>,
                    },
                    keys: Seq::empty(),
                };
                match r {
                    Ok(l) => spec_locale_keys(*raw, root) == Ok::<_, ErrM>(l@.keys) && l@.name
                        == name.name@,
                    Err(e) => spec_locale_keys(*raw, root) == Err::<Seq<(KeyM, ValueM)>, _>(e@),
                }
            }),
    {
        let ns = match namespace {
            Some(k) => Some(k.clone()),
            None => None,
        };
        let root = KeyPath::new(ns);
        proof {
            assert(root@ =~= PathM {
                namespace: match namespace {
                    Some(k) => Some(k@),
                    None => None::<KeyM>,
                },
                keys: Seq::empty(),
            });
        }
        match parse_value(raw, &root) {
            Ok(ParsedValue::Subkeys(es)) => Ok(Locale { top_locale_name: name, keys: es }),
            Ok(_) => Err(Error::UnexpectedSequence(root)),
            Err(e) => Err(e),
        }
    }
}

/// Ghost model of one namespace.
#[verifier::ext_equal]
pub struct NamespaceM {
    pub key: KeyM,
    pub locales: Seq<LocaleM>,
}

/// One namespace: its key and every locale's tree for it.
#[derive(PartialEq, Eq)]
pub struct Namespace {
    pub key: Key,
    pub locales: Vec<Locale>,
}

/// The models of a run of locales, in order.
pub open spec fn locale_models(s: Seq<Locale>) -> Seq<LocaleM> {
    Seq::new(s.len(), |i: int| s[i]@)
}

impl View for Namespace {
    type V = NamespaceM;

    open spec fn view(&self) -> NamespaceM {
        NamespaceM { key: self.key@, locales: locale_models(self.locales@) }
    }
}

/// Ghost model of the whole configured input.
#[verifier::ext_equal]
pub enum TreesM {
    Locales(Seq<LocaleM>),
    Namespaces(Seq<NamespaceM>),
}

/// Every configured locale tree: flat when no namespaces are configured,
/// grouped by namespace otherwise.
#[derive(PartialEq, Eq)]
pub enum LocalesOrNamespaces {
    Locales(Vec<Locale>),
    Namespaces(Vec<Namespace>),
}

/// The models of a run of namespaces, in order.
pub open spec fn namespace_models(s: Seq<Namespace>) -> Seq<NamespaceM> {
    Seq::new(s.len(), |i: int| s[i]@)
}

impl View for LocalesOrNamespaces {
    type V = TreesM;

    open spec fn view(&self) -> TreesM {
        match self {
            LocalesOrNamespaces::Locales(ls) => TreesM::Locales(locale_models(ls@)),
            LocalesOrNamespaces::Namespaces(ns) => TreesM::Namespaces(namespace_models(ns@)),
        }
    }
}

/// The names of a run of keys, in order: key identity is by name.
pub open spec fn key_names(ks: Seq<KeyM>) -> Seq<Seq<char>> {
    Seq::new(ks.len(), |i: int| ks[i].name)
}

/// The value a name path reaches in a tree: the first entry whose key has the
/// first name, then its subkeys for the rest of the path.
pub open spec fn spec_get(entries: Seq<(KeyM, ValueM)>, names: Seq<Seq<char>>) -> Option<ValueM>
    decreases names.len(), entries.len(),
{
    if names.len() == 0 || entries.len() == 0 {
        None
    } else if entries[0].0.name == names[0] {
        if names.len() == 1 {
            Some(entries[0].1)
        } else {
            match entries[0].1 {
                ValueM::Subkeys(es) => spec_get(es, names.subrange(1, names.len() as int)),
                _ => None,
            }
        }
    } else {
        spec_get(entries.subrange(1, entries.len() as int), names)
    }
}

/// Walks a tree along a name path, handing back a structural copy of the
/// value reached.
#[verifier::loop_isolation(false)]
pub fn get_value(entries: &Vec<(Key, ParsedValue)>, names: &Vec<Key>, from: usize) -> (r: Option<
    ParsedValue,
>)
    requires
        from <= names@.len(),
    ensures
        match r {
            Some(v) => spec_get(
                entry_models(entries@),
                key_names(crate::parse::keys_model(names@)).subrange(
                    from as int,
                    names@.len() as int,
                ),
            ) == Some(v@),
            None => spec_get(
                entry_models(entries@),
                key_names(crate::parse::keys_model(names@)).subrange(
                    from as int,
                    names@.len() as int,
                ),
            ) is None,
        },
    decreases names@.len() - from, entries@.len(),
{
    proof {
        broadcast use lemma_entry_models;

    }
    let ghost tgt = key_names(crate::parse::keys_model(names@)).subrange(
        from as int,
        names@.len() as int,
    );
    if from >= names.len() {
        return None;
    }
    let n = entries.len();
    proof {
        assert(entry_models(entries@).subrange(0, n as int) =~= entry_models(entries@));
    }
    let mut i: usize = 0;
    while i < n
        invariant
            i <= n,
            from < names@.len(),
            n == entries@.len(),
            tgt == key_names(crate::parse::keys_model(names@)).subrange(
                from as int,
                names@.len() as int,
            ),
            tgt.len() > 0,
            spec_get(entry_models(entries@), tgt) == spec_get(
                entry_models(entries@).subrange(i as int, n as int),
                tgt,
            ),
        decreases n - i,
    {
        let ghost em = entry_models(entries@);
        proof {
            assert(em.subrange(0, n as int) =~= em);
            let tail = em.subrange(i as int, n as int);
            assert(tail[0] == em[i as int]);
            assert(tail.subrange(1, tail.len() as int) =~= em.subrange(i as int + 1, n as int));
            assert(tgt[0] == names@[from as int]@.name);
        }
        if entries[i].0.name.eq(&names[from].name) {
            if from + 1 == names.len() {
                proof {
                    assert(tgt.len() == 1);
                }
                return Some(crate::value::clone_value(&entries[i].1));
            }
            match &entries[i].1 {
                ParsedValue::Subkeys(es) => {
                    proof {
                        assert(em[i as int].1 == ValueM::Subkeys(entry_models(es@)));
                        assert(tgt.subrange(1, tgt.len() as int) =~= key_names(
                            crate::parse::keys_model(names@),
                        ).subrange(from as int + 1, names@.len() as int));
                    }
                    return get_value(es, names, from + 1);
                },
                _ => {
                    return None;
                },
            }
        }
        i = i + 1;
    }
    proof {
        assert(entry_models(entries@).subrange(n as int, n as int) =~= Seq::<
            (KeyM, ValueM),
        >::empty());
    }
    None
}

} // verus!
