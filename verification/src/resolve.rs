use vstd::prelude::*;
use crate::error::Error;
use crate::error::ErrM;
use crate::key::Key;
use crate::key::KeyM;
use crate::locale::get_value;
use crate::locale::key_names;
use crate::locale::locale_models;
use crate::locale::namespace_models;
use crate::locale::spec_get;
use crate::locale::Locale;
use crate::locale::LocaleM;
use crate::locale::LocalesOrNamespaces;
use crate::locale::TreesM;
use crate::parse::keys_model;
use crate::parse::value_res;
use crate::value::arm_models;
use crate::value::entry_models;
use crate::value::lemma_arm_models_push;
use crate::value::lemma_entry_models_push;
use crate::value::ParsedValue;
use crate::value::Selector;
use crate::value::ValueM;

verus! {

/// Ghost model of a reference target under resolution: which locale owns it,
/// in which namespace, and the name path to it. Two targets are the same
/// exactly when these names agree.
#[verifier::ext_equal]
pub struct TargetM {
    pub locale: Seq<char>,
    pub namespace: Option<Seq<char>>,
    pub names: Seq<Seq<char>>,
}

/// A reference target currently being resolved; the resolver keeps a stack of
/// these to detect reference cycles.
pub struct Target {
    pub locale: Key,
    pub namespace: Option<Key>,
    pub names: Vec<Key>,
}

impl View for Target {
    type V = TargetM;

    open spec fn view(&self) -> TargetM {
        TargetM {
            locale: self.locale.name@,
            namespace: match self.namespace {
                Some(k) => Some(k.name@),
                None => None,
            },
            names: Seq::new(self.names@.len(), |i: int| self.names@[i].name@),
        }
    }
}

/// The models of the resolution stack, deepest first.
pub open spec fn stack_model(s: Seq<Target>) -> Seq<TargetM> {
    Seq::new(s.len(), |i: int| s[i]@)
}

/// The tree of the named locale: the first one of that name.
pub open spec fn spec_find_locale(ls: Seq<LocaleM>, name: Seq<char>) -> Option<Seq<(KeyM, ValueM)>>
    decreases ls.len(),
{
    if ls.len() == 0 {
        None
    } else if ls[0].name == name {
        Some(ls[0].keys)
    } else {
        spec_find_locale(ls.subrange(1, ls.len() as int), name)
    }
}

/// The locales of the named namespace: the first one of that name.
pub open spec fn spec_find_namespace(
    ns: Seq<crate::locale::NamespaceM>,
    name: Seq<char>,
) -> Option<Seq<LocaleM>>
    decreases ns.len(),
{
    if ns.len() == 0 {
        None
    } else if ns[0].key.name == name {
        Some(ns[0].locales)
    } else {
        spec_find_namespace(ns.subrange(1, ns.len() as int), name)
    }
}

/// The tree a reference looks into: the named locale, inside the named
/// namespace where namespaces are configured. Naming a namespace in flat
/// locale mode finds nothing.
pub open spec fn spec_find_tree(
    trees: TreesM,
    locale: Seq<char>,
    ns: Option<Seq<char>>,
) -> Option<Seq<(KeyM, ValueM)>> {
    match trees {
        TreesM::Locales(ls) => match ns {
            Some(_) => None,
            None => spec_find_locale(ls, locale),
        },
        TreesM::Namespaces(nss) => match ns {
            None => None,
            Some(n) => match spec_find_namespace(nss, n) {
                Some(ls) => spec_find_locale(ls, locale),
                None => None,
            },
        },
    }
}

/// A value with no unresolved reference left anywhere in it.
pub open spec fn spec_fully_resolved(v: ValueM) -> bool
    decreases v,
{
    match v {
        ValueM::Str(_) => true,
        ValueM::Variable(_) => true,
        ValueM::Component { key: _, body } => spec_fully_resolved(*body),
        ValueM::Plural { count: _, arms } => spec_arms_resolved(arms),
        ValueM::ForeignKey { path: _, resolved } => match resolved {
            Some(b) => spec_fully_resolved(*b),
            None => false,
        },
        ValueM::Subkeys(es) => spec_entries_resolved(es),
    }
}

pub open spec fn spec_arms_resolved(arms: Seq<(Selector, ValueM)>) -> bool
    decreases arms,
{
    if arms.len() == 0 {
        true
    } else {
        spec_fully_resolved(arms[0].1) && spec_arms_resolved(
            arms.subrange(1, arms.len() as int),
        )
    }
}

pub open spec fn spec_entries_resolved(es: Seq<(KeyM, ValueM)>) -> bool
    decreases es,
{
    if es.len() == 0 {
        true
    } else {
        spec_fully_resolved(es[0].1) && spec_entries_resolved(es.subrange(1, es.len() as int))
    }
}

/// What resolving one value yields. Already-resolved references are left
/// alone, so resolution is idempotent; an unresolved reference is looked up
/// in the current locale, falling back to the default locale, and the found
/// value is resolved in its owner's context and substituted; a target already
/// on the stack is a reference cycle.
pub open spec fn spec_resolve(
    v: ValueM,
    trees: TreesM,
    cur_locale: Seq<char>,
    cur_ns: Option<Seq<char>>,
    default: Seq<char>,
    stack: Seq<TargetM>,
    fuel: u64,
) -> Result<ValueM, ErrM>
    decreases fuel, v,
{
    match v {
        ValueM::Str(_) => Ok(v),
        ValueM::Variable(_) => Ok(v),
        ValueM::Component { key, body } => match spec_resolve(
            *body,
            trees,
            cur_locale,
            cur_ns,
            default,
            stack,
            fuel,
        ) {
            Ok(b) => Ok(ValueM::Component { key, body: Box::new(b) }),
            Err(e) => Err(e),
        },
        ValueM::Plural { count, arms } => match spec_resolve_arms(
            arms,
            trees,
            cur_locale,
            cur_ns,
            default,
            stack,
            fuel,
        ) {
            Ok(a) => Ok(ValueM::Plural { count, arms: a }),
            Err(e) => Err(e),
        },
        ValueM::Subkeys(es) => match spec_resolve_entries(
            es,
            trees,
            cur_locale,
            cur_ns,
            default,
            stack,
            fuel,
        ) {
            Ok(es2) => Ok(ValueM::Subkeys(es2)),
            Err(e) => Err(e),
        },
        ValueM::ForeignKey { path, resolved } => match resolved {
            Some(b) => match spec_resolve(*b, trees, cur_locale, cur_ns, default, stack, fuel) {
                Ok(rb) => Ok(ValueM::ForeignKey { path, resolved: Some(Box::new(rb)) }),
                Err(e) => Err(e),
            },
            None => {
                let eff_ns = match path.namespace {
                    Some(k) => Some(k.name),
                    None => cur_ns,
                };
                let names = key_names(path.keys);
                let here = match spec_find_tree(trees, cur_locale, eff_ns) {
                    Some(t) => spec_get(t, names),
                    None => None,
                };
                let owner = if here is Some {
                    cur_locale
                } else {
                    default
                };
                let tv = if here is Some {
                    here
                } else {
                    match spec_find_tree(trees, default, eff_ns) {
                        Some(t) => spec_get(t, names),
                        None => None,
                    }
                };
                match tv {
                    None => Err(ErrM::UndefinedForeignKey(path)),
                    Some(target) => {
                        let t = TargetM { locale: owner, namespace: eff_ns, names };
                        if stack.contains(t) {
                            Err(ErrM::ForeignKeyCycle(path))
                        } else if fuel == 0 {
                            Err(ErrM::ForeignKeyCycle(path))
                        } else {
                            match spec_resolve(
                                target,
                                trees,
                                owner,
                                eff_ns,
                                default,
                                stack.push(t),
                                (fuel - 1) as u64,
                            ) {
                                Ok(rv) => Ok(
                                    ValueM::ForeignKey { path, resolved: Some(Box::new(rv)) },
                                ),
                                Err(e) => Err(e),
                            }
                        }
                    },
                }
            },
        },
    }
}

pub open spec fn spec_resolve_arms(
    arms: Seq<(Selector, ValueM)>,
    trees: TreesM,
    cur_locale: Seq<char>,
    cur_ns: Option<Seq<char>>,
    default: Seq<char>,
    stack: Seq<TargetM>,
    fuel: u64,
) -> Result<Seq<(Selector, ValueM)>, ErrM>
    decreases fuel, arms,
{
    if arms.len() == 0 {
        Ok(Seq::empty())
    } else {
        match spec_resolve(arms[0].1, trees, cur_locale, cur_ns, default, stack, fuel) {
            Ok(rv) => match spec_resolve_arms(
                arms.subrange(1, arms.len() as int),
                trees,
                cur_locale,
                cur_ns,
                default,
                stack,
                fuel,
            ) {
                Ok(rest) => Ok(seq![(arms[0].0, rv)] + rest),
                Err(e) => Err(e),
            },
            Err(e) => Err(e),
        }
    }
}

pub open spec fn spec_resolve_entries(
    es: Seq<(KeyM, ValueM)>,
    trees: TreesM,
    cur_locale: Seq<char>,
    cur_ns: Option<Seq<char>>,
    default: Seq<char>,
    stack: Seq<TargetM>,
    fuel: u64,
) -> Result<Seq<(KeyM, ValueM)>, ErrM>
    decreases fuel, es,
{
    if es.len() == 0 {
        Ok(Seq::empty())
    } else {
        match spec_resolve(es[0].1, trees, cur_locale, cur_ns, default, stack, fuel) {
            Ok(rv) => match spec_resolve_entries(
                es.subrange(1, es.len() as int),
                trees,
                cur_locale,
                cur_ns,
                default,
                stack,
                fuel,
            ) {
                Ok(rest) => Ok(seq![(es[0].0, rv)] + rest),
                Err(e) => Err(e),
            },
            Err(e) => Err(e),
        }
    }
}

/// Resolution is a no-op on a value with no unresolved reference: it hands
/// the value back unchanged, whatever the context. With every reference
/// substituted by the first pass, a second pass changes nothing, so
/// resolution is idempotent.
pub proof fn lemma_resolve_noop(
    v: ValueM,
    trees: TreesM,
    cur_locale: Seq<char>,
    cur_ns: Option<Seq<char>>,
    default: Seq<char>,
    stack: Seq<TargetM>,
    fuel: u64,
)
    requires
        spec_fully_resolved(v),
    ensures
        spec_resolve(v, trees, cur_locale, cur_ns, default, stack, fuel) == Ok::<_, ErrM>(v),
    decreases fuel, v,
{
    match v {
        ValueM::Component { key, body } => {
            lemma_resolve_noop(*body, trees, cur_locale, cur_ns, default, stack, fuel);
            assert(Box::new(*body) == body);
        },
        ValueM::Plural { count, arms } => {
            lemma_resolve_arms_noop(arms, trees, cur_locale, cur_ns, default, stack, fuel);
        },
        ValueM::Subkeys(es) => {
            lemma_resolve_entries_noop(es, trees, cur_locale, cur_ns, default, stack, fuel);
        },
        ValueM::ForeignKey { path, resolved } => {
            match resolved {
                Some(b) => {
                    lemma_resolve_noop(*b, trees, cur_locale, cur_ns, default, stack, fuel);
                    assert(Box::new(*b) == b);
                },
                None => {},
            }
        },
        _ => {},
    }
}

proof fn lemma_resolve_arms_noop(
    arms: Seq<(Selector, ValueM)>,
    trees: TreesM,
    cur_locale: Seq<char>,
    cur_ns: Option<Seq<char>>,
    default: Seq<char>,
    stack: Seq<TargetM>,
    fuel: u64,
)
    requires
        spec_arms_resolved(arms),
    ensures
        spec_resolve_arms(arms, trees, cur_locale, cur_ns, default, stack, fuel) == Ok::<
            _,
            ErrM,
        >(arms),
    decreases fuel, arms,
{
    if arms.len() > 0 {
        lemma_resolve_noop(arms[0].1, trees, cur_locale, cur_ns, default, stack, fuel);
        lemma_resolve_arms_noop(
            arms.subrange(1, arms.len() as int),
            trees,
            cur_locale,
            cur_ns,
            default,
            stack,
            fuel,
        );
        assert(seq![(arms[0].0, arms[0].1)] + arms.subrange(1, arms.len() as int) =~= arms);
    } else {
        assert(arms =~= Seq::<(Selector, ValueM)>::empty());
    }
}

proof fn lemma_resolve_entries_noop(
    es: Seq<(KeyM, ValueM)>,
    trees: TreesM,
    cur_locale: Seq<char>,
    cur_ns: Option<Seq<char>>,
    default: Seq<char>,
    stack: Seq<TargetM>,
    fuel: u64,
)
    requires
        spec_entries_resolved(es),
    ensures
        spec_resolve_entries(es, trees, cur_locale, cur_ns, default, stack, fuel) == Ok::<
            _,
            ErrM,
        >(es),
    decreases fuel, es,
{
    if es.len() > 0 {
        lemma_resolve_noop(es[0].1, trees, cur_locale, cur_ns, default, stack, fuel);
        lemma_resolve_entries_noop(
            es.subrange(1, es.len() as int),
            trees,
            cur_locale,
            cur_ns,
            default,
            stack,
            fuel,
        );
        assert(seq![(es[0].0, es[0].1)] + es.subrange(1, es.len() as int) =~= es);
    } else {
        assert(es =~= Seq::<(KeyM, ValueM)>::empty());
    }
}

/// What resolution returns has no unresolved reference left: after the pass
/// succeeds, no reference remains unresolved anywhere in the tree.
pub proof fn lemma_resolve_resolves(
    v: ValueM,
    trees: TreesM,
    cur_locale: Seq<char>,
    cur_ns: Option<Seq<char>>,
    default: Seq<char>,
    stack: Seq<TargetM>,
    fuel: u64,
)
    ensures
        spec_resolve(v, trees, cur_locale, cur_ns, default, stack, fuel) matches Ok(r)
            ==> spec_fully_resolved(r),
    decreases fuel, v,
{
    match v {
        ValueM::Component { key, body } => {
            lemma_resolve_resolves(*body, trees, cur_locale, cur_ns, default, stack, fuel);
            match spec_resolve(*body, trees, cur_locale, cur_ns, default, stack, fuel) {
                Ok(b) => {
                    assert(*Box::new(b) == b);
                    assert(spec_fully_resolved(ValueM::Component { key, body: Box::new(b) }));
                },
                Err(_) => {},
            }
        },
        ValueM::Plural { count, arms } => {
            lemma_resolve_arms_resolves(arms, trees, cur_locale, cur_ns, default, stack, fuel);
        },
        ValueM::Subkeys(es) => {
            lemma_resolve_entries_resolves(es, trees, cur_locale, cur_ns, default, stack, fuel);
        },
        ValueM::ForeignKey { path, resolved } => {
            match resolved {
                Some(b) => {
                    lemma_resolve_resolves(*b, trees, cur_locale, cur_ns, default, stack, fuel);
                    match spec_resolve(*b, trees, cur_locale, cur_ns, default, stack, fuel) {
                        Ok(rb) => {
                            assert(*Box::new(rb) == rb);
                            assert(spec_fully_resolved(
                                ValueM::ForeignKey { path, resolved: Some(Box::new(rb)) },
                            ));
                        },
                        Err(_) => {},
                    }
                },
                None => {},
            }
            if resolved is None {
                let eff_ns = match path.namespace {
                    Some(k) => Some(k.name),
                    None => cur_ns,
                };
                let names = key_names(path.keys);
                let here = match spec_find_tree(trees, cur_locale, eff_ns) {
                    Some(t) => spec_get(t, names),
                    None => None,
                };
                let owner = if here is Some {
                    cur_locale
                } else {
                    default
                };
                let tv = if here is Some {
                    here
                } else {
                    match spec_find_tree(trees, default, eff_ns) {
                        Some(t) => spec_get(t, names),
                        None => None,
                    }
                };
                match tv {
                    Some(target) => {
                        let t = TargetM { locale: owner, namespace: eff_ns, names };
                        if !stack.contains(t) && fuel > 0 {
                            lemma_resolve_resolves(
                                target,
                                trees,
                                owner,
                                eff_ns,
                                default,
                                stack.push(t),
                                (fuel - 1) as u64,
                            );
                            match spec_resolve(
                                target,
                                trees,
                                owner,
                                eff_ns,
                                default,
                                stack.push(t),
                                (fuel - 1) as u64,
                            ) {
                                Ok(rv) => {
                                    assert(*Box::new(rv) == rv);
                                    assert(spec_fully_resolved(
                                        ValueM::ForeignKey {
                                            path,
                                            resolved: Some(Box::new(rv)),
                                        },
                                    ));
                                },
                                Err(_) => {},
                            }
                        }
                    },
                    None => {},
                }
            }
        },
        _ => {},
    }
}

proof fn lemma_resolve_arms_resolves(
    arms: Seq<(Selector, ValueM)>,
    trees: TreesM,
    cur_locale: Seq<char>,
    cur_ns: Option<Seq<char>>,
    default: Seq<char>,
    stack: Seq<TargetM>,
    fuel: u64,
)
    ensures
        spec_resolve_arms(arms, trees, cur_locale, cur_ns, default, stack, fuel) matches Ok(r)
            ==> spec_arms_resolved(r),
    decreases fuel, arms,
{
    if arms.len() > 0 {
        lemma_resolve_resolves(arms[0].1, trees, cur_locale, cur_ns, default, stack, fuel);
        lemma_resolve_arms_resolves(
            arms.subrange(1, arms.len() as int),
            trees,
            cur_locale,
            cur_ns,
            default,
            stack,
            fuel,
        );
        let sr = spec_resolve(arms[0].1, trees, cur_locale, cur_ns, default, stack, fuel);
        let rr = spec_resolve_arms(
            arms.subrange(1, arms.len() as int),
            trees,
            cur_locale,
            cur_ns,
            default,
            stack,
            fuel,
        );
        match (sr, rr) {
            (Ok(rv), Ok(rest)) => {
                let whole = seq![(arms[0].0, rv)] + rest;
                assert(whole[0].1 == rv);
                assert(whole.subrange(1, whole.len() as int) =~= rest);
            },
            _ => {},
        }
    }
}

proof fn lemma_resolve_entries_resolves(
    es: Seq<(KeyM, ValueM)>,
    trees: TreesM,
    cur_locale: Seq<char>,
    cur_ns: Option<Seq<char>>,
    default: Seq<char>,
    stack: Seq<TargetM>,
    fuel: u64,
)
    ensures
        spec_resolve_entries(es, trees, cur_locale, cur_ns, default, stack, fuel) matches Ok(r)
            ==> spec_entries_resolved(r),
    decreases fuel, es,
{
    if es.len() > 0 {
        lemma_resolve_resolves(es[0].1, trees, cur_locale, cur_ns, default, stack, fuel);
        lemma_resolve_entries_resolves(
            es.subrange(1, es.len() as int),
            trees,
            cur_locale,
            cur_ns,
            default,
            stack,
            fuel,
        );
        let sr = spec_resolve(es[0].1, trees, cur_locale, cur_ns, default, stack, fuel);
        let rr = spec_resolve_entries(
            es.subrange(1, es.len() as int),
            trees,
            cur_locale,
            cur_ns,
            default,
            stack,
            fuel,
        );
        match (sr, rr) {
            (Ok(rv), Ok(rest)) => {
                let whole = seq![(es[0].0, rv)] + rest;
                assert(whole[0].1 == rv);
                assert(whole.subrange(1, whole.len() as int) =~= rest);
            },
            _ => {},
        }
    }
}

/// The name a key option stands for.
pub open spec fn opt_name(k: Option<&Key>) -> Option<Seq<char>> {
    match k {
        Some(k) => Some(k.name@),
        None => None,
    }
}

/// The model of a resolution outcome over whole inputs.
pub open spec fn trees_res(r: Result<LocalesOrNamespaces, Error>) -> Result<TreesM, ErrM> {
    match r {
        Ok(t) => Ok(t@),
        Err(e) => Err(e@),
    }
}

pub(crate) fn clone_keys(v: &Vec<Key>) -> (r: Vec<Key>)
    ensures
        r@.len() == v@.len(),
        forall|i: int| 0 <= i < v@.len() ==> r@[i]@ == v@[i]@,
{
    let mut r: Vec<Key> = Vec::new();
    let mut i: usize = 0;
    while i < v.len()
        invariant
            i <= v@.len(),
            r@.len() == i,
            forall|j: int| 0 <= j < i ==> r@[j]@ == v@[j]@,
        decreases v@.len() - i,
    {
        r.push(v[i].clone());
        i = i + 1;
    }
    r
}

fn clone_target(t: &Target) -> (r: Target)
    ensures
        r@ == t@,
{
    let namespace = match &t.namespace {
        Some(k) => Some(k.clone()),
        None => None,
    };
    let r = Target { locale: t.locale.clone(), namespace, names: clone_keys(&t.names) };
    proof {
        assert(r@ =~= t@);
    }
    r
}

fn target_eq(a: &Target, b: &Target) -> (r: bool)
    ensures
        r == (a@ == b@),
{
    if !a.locale.name.eq(&b.locale.name) {
        return false;
    }
    match (&a.namespace, &b.namespace) {
        (Some(x), Some(y)) => {
            if !x.name.eq(&y.name) {
                return false;
            }
        },
        (None, None) => {},
        _ => {
            return false;
        },
    }
    if a.names.len() != b.names.len() {
        proof {
            assert(a@.names.len() != b@.names.len());
        }
        return false;
    }
    let n = a.names.len();
    let mut i: usize = 0;
    while i < n
        invariant
            i <= n,
            n == a.names@.len(),
            n == b.names@.len(),
            forall|j: int| 0 <= j < i ==> a@.names[j] == b@.names[j],
        decreases n - i,
    {
        if !a.names[i].name.eq(&b.names[i].name) {
            proof {
                assert(a@.names[i as int] != b@.names[i as int]);
            }
            return false;
        }
        i = i + 1;
    }
    proof {
        assert(a@.names =~= b@.names);
        assert(a@ =~= b@);
    }
    true
}

#[verifier::loop_isolation(false)]
fn stack_contains_exec(stack: &Vec<Target>, t: &Target) -> (r: bool)
    ensures
        r == stack_model(stack@).contains(t@),
{
    let n = stack.len();
    let mut i: usize = 0;
    while i < n
        invariant
            i <= n,
            n == stack@.len(),
            forall|j: int| 0 <= j < i ==> stack_model(stack@)[j] != t@,
        decreases n - i,
    {
        if target_eq(&stack[i], t) {
            proof {
                assert(stack_model(stack@)[i as int] == t@);
            }
            return true;
        }
        i = i + 1;
    }
    proof {
        assert(!stack_model(stack@).contains(t@));
    }
    false
}

fn push_target(stack: &Vec<Target>, t: Target) -> (r: Vec<Target>)
    ensures
        stack_model(r@) == stack_model(stack@).push(t@),
{
    let ghost tm = t@;
    let mut r: Vec<Target> = Vec::new();
    let mut i: usize = 0;
    while i < stack.len()
        invariant
            i <= stack@.len(),
            r@.len() == i,
            forall|j: int| 0 <= j < i ==> r@[j]@ == stack@[j]@,
        decreases stack@.len() - i,
    {
        r.push(clone_target(&stack[i]));
        i = i + 1;
    }
    r.push(t);
    proof {
        assert(stack_model(r@) =~= stack_model(stack@).push(tm));
    }
    r
}

/// Finds the named locale's tree.
#[verifier::loop_isolation(false)]
pub(crate) fn find_locale<'a>(ls: &'a Vec<Locale>, name: &Key) -> (r: Option<&'a Locale>)
    ensures
        match r {
            Some(l) => spec_find_locale(locale_models(ls@), name.name@) == Some(l@.keys),
            None => spec_find_locale(locale_models(ls@), name.name@) is None,
        },
{
    let ghost lm = locale_models(ls@);
    let n = ls.len();
    proof {
        assert(lm.subrange(0, n as int) =~= lm);
    }
    let mut i: usize = 0;
    while i < n
        invariant
            i <= n,
            n == lm.len(),
            spec_find_locale(lm, name.name@) == spec_find_locale(
                lm.subrange(i as int, n as int),
                name.name@,
            ),
        decreases n - i,
    {
        proof {
            let tail = lm.subrange(i as int, n as int);
            assert(tail[0] == lm[i as int]);
            assert(tail.subrange(1, tail.len() as int) =~= lm.subrange(i as int + 1, n as int));
        }
        if ls[i].top_locale_name.name.eq(&name.name) {
            return Some(&ls[i]);
        }
        i = i + 1;
    }
    proof {
        assert(lm.subrange(n as int, n as int) =~= Seq::<LocaleM>::empty());
    }
    None
}

/// Finds the named namespace.
#[verifier::loop_isolation(false)]
fn find_namespace<'a>(nss: &'a Vec<crate::locale::Namespace>, name: &Key) -> (r: Option<
    &'a crate::locale::Namespace,
>)
    ensures
        match r {
            Some(n) => spec_find_namespace(namespace_models(nss@), name.name@) == Some(
                n@.locales,
            ),
            None => spec_find_namespace(namespace_models(nss@), name.name@) is None,
        },
{
    let ghost nm = namespace_models(nss@);
    let n = nss.len();
    proof {
        assert(nm.subrange(0, n as int) =~= nm);
    }
    let mut i: usize = 0;
    while i < n
        invariant
            i <= n,
            n == nm.len(),
            spec_find_namespace(nm, name.name@) == spec_find_namespace(
                nm.subrange(i as int, n as int),
                name.name@,
            ),
        decreases n - i,
    {
        proof {
            let tail = nm.subrange(i as int, n as int);
            assert(tail[0] == nm[i as int]);
            assert(tail.subrange(1, tail.len() as int) =~= nm.subrange(i as int + 1, n as int));
        }
        if nss[i].key.name.eq(&name.name) {
            return Some(&nss[i]);
        }
        i = i + 1;
    }
    proof {
        assert(nm.subrange(n as int, n as int) =~= Seq::<crate::locale::NamespaceM>::empty());
    }
    None
}

/// Finds the tree a reference looks into.
fn find_tree<'a>(trees: &'a LocalesOrNamespaces, locale: &Key, ns: Option<&Key>) -> (r: Option<
    &'a Vec<(Key, ParsedValue)>,
>)
    ensures
        match r {
            Some(t) => spec_find_tree(trees@, locale.name@, opt_name(ns)) == Some(
                entry_models(t@),
            ),
            None => spec_find_tree(trees@, locale.name@, opt_name(ns)) is None,
        },
{
    match trees {
        LocalesOrNamespaces::Locales(ls) => match ns {
            Some(_) => None,
            None => match find_locale(ls, locale) {
                Some(l) => Some(&l.keys),
                None => None,
            },
        },
        LocalesOrNamespaces::Namespaces(nss) => match ns {
            None => None,
            Some(nk) => match find_namespace(nss, nk) {
                Some(nsp) => match find_locale(&nsp.locales, locale) {
                    Some(l) => Some(&l.keys),
                    None => None,
                },
                None => None,
            },
        },
    }
}

/// Resolves one value: substitutes every reference by a structural copy of
/// the value it reaches, reports an unknown target or a reference cycle, and
/// leaves everything else as it stands.
#[verifier::loop_isolation(false)]
pub fn resolve_value(
    v: &ParsedValue,
    trees: &LocalesOrNamespaces,
    cur_locale: &Key,
    cur_ns: Option<&Key>,
    default: &Key,
    stack: &Vec<Target>,
    fuel: u64,
) -> (r: Result<ParsedValue, Error>)
    ensures
        value_res(r) == spec_resolve(
            v@,
            trees@,
            cur_locale.name@,
            opt_name(cur_ns),
            default.name@,
            stack_model(stack@),
            fuel,
        ),
    decreases fuel, *v,
{
    let ghost ctx_cur = cur_locale.name@;
    let ghost ctx_ns = opt_name(cur_ns);
    let ghost ctx_def = default.name@;
    let ghost ctx_stack = stack_model(stack@);
    match v {
        ParsedValue::Str(s) => Ok(ParsedValue::Str(s.clone())),
        ParsedValue::Variable(k) => Ok(ParsedValue::Variable(k.clone())),
        ParsedValue::Component { key, body } => {
            match resolve_value(body, trees, cur_locale, cur_ns, default, stack, fuel) {
                Ok(b) => Ok(ParsedValue::Component { key: key.clone(), body: Box::new(b) }),
                Err(e) => Err(e),
            }
        },
        ParsedValue::Plural { count, arms } => {
            let n = arms.len();
            let mut out: Vec<(Selector, ParsedValue)> = Vec::new();
            proof {
                broadcast use crate::value::lemma_arm_models;

                assert(arm_models(arms@).subrange(0, n as int) =~= arm_models(arms@));
            }
            let ghost am = arm_models(arms@);
            let mut i: usize = 0;
            while i < n
                invariant
                    i <= n,
                    spec_resolve_arms(am, trees@, ctx_cur, ctx_ns, ctx_def, ctx_stack, fuel)
                        == (match spec_resolve_arms(
                        am.subrange(i as int, n as int),
                        trees@,
                        ctx_cur,
                        ctx_ns,
                        ctx_def,
                        ctx_stack,
                        fuel,
                    ) {
                        Ok(rest) => Ok::<_, ErrM>(arm_models(out@) + rest),
                        Err(e) => Err(e),
                    }),
                decreases n - i,
            {
                let ghost tail = am.subrange(i as int, n as int);
                proof {
                    assert(tail[0] == am[i as int]);
                    assert(tail.subrange(1, tail.len() as int) =~= am.subrange(
                        i as int + 1,
                        n as int,
                    ));
                    assert(decreases_to!(*v => (*v)->arms));
                    assert((*v)->arms == *arms);
                    assert(decreases_to!(*arms => arms@));
                    assert(decreases_to!(arms@ => arms@[i as int]));
                    assert(decreases_to!(arms@[i as int] => arms@[i as int].1));
                }
                match resolve_value(
                    &arms[i].1,
                    trees,
                    cur_locale,
                    cur_ns,
                    default,
                    stack,
                    fuel,
                ) {
                    Ok(rv) => {
                        let ghost out_old = out@;
                        let ghost rvm = rv@;
                        let ghost sel = arms@[i as int].0;
                        out.push((arms[i].0, rv));
                        proof {
                            lemma_arm_models_push(out_old, out@.last());
                            assert(arm_models(out@) =~= arm_models(out_old) + seq![(sel, rvm)]);
                            let sr = spec_resolve_arms(
                                am.subrange(i as int + 1, n as int),
                                trees@,
                                ctx_cur,
                                ctx_ns,
                                ctx_def,
                                ctx_stack,
                                fuel,
                            );
                            match sr {
                                Ok(rest) => {
                                    assert(arm_models(out_old) + (seq![(sel, rvm)] + rest)
                                        =~= arm_models(out@) + rest);
                                },
                                Err(_) => {},
                            }
                        }
                    },
                    Err(e) => {
                        return Err(e);
                    },
                }
                i = i + 1;
            }
            proof {
                assert(am.subrange(n as int, n as int) =~= Seq::<(Selector, ValueM)>::empty());
                assert(arm_models(out@) + Seq::<(Selector, ValueM)>::empty() =~= arm_models(
                    out@,
                ));
            }
            Ok(ParsedValue::Plural { count: count.clone(), arms: out })
        },
        ParsedValue::Subkeys(entries) => {
            let n = entries.len();
            let mut out: Vec<(Key, ParsedValue)> = Vec::new();
            proof {
                broadcast use crate::value::lemma_entry_models;

                assert(entry_models(entries@).subrange(0, n as int) =~= entry_models(entries@));
            }
            let ghost em = entry_models(entries@);
            let mut i: usize = 0;
            while i < n
                invariant
                    i <= n,
                    spec_resolve_entries(em, trees@, ctx_cur, ctx_ns, ctx_def, ctx_stack, fuel)
                        == (match spec_resolve_entries(
                        em.subrange(i as int, n as int),
                        trees@,
                        ctx_cur,
                        ctx_ns,
                        ctx_def,
                        ctx_stack,
                        fuel,
                    ) {
                        Ok(rest) => Ok::<_, ErrM>(entry_models(out@) + rest),
                        Err(e) => Err(e),
                    }),
                decreases n - i,
            {
                let ghost tail = em.subrange(i as int, n as int);
                proof {
                    assert(tail[0] == em[i as int]);
                    assert(tail.subrange(1, tail.len() as int) =~= em.subrange(
                        i as int + 1,
                        n as int,
                    ));
                    assert(decreases_to!(*v => (*v)->0));
                    assert((*v)->0 == *entries);
                    assert(decreases_to!(*entries => entries@));
                    assert(decreases_to!(entries@ => entries@[i as int]));
                    assert(decreases_to!(entries@[i as int] => entries@[i as int].1));
                }
                match resolve_value(
                    &entries[i].1,
                    trees,
                    cur_locale,
                    cur_ns,
                    default,
                    stack,
                    fuel,
                ) {
                    Ok(rv) => {
                        let ghost out_old = out@;
                        let ghost rvm = rv@;
                        let ghost km = entries@[i as int].0@;
                        out.push((entries[i].0.clone(), rv));
                        proof {
                            lemma_entry_models_push(out_old, out@.last());
                            assert(entry_models(out@) =~= entry_models(out_old) + seq![(km, rvm)]);
                            let sr = spec_resolve_entries(
                                em.subrange(i as int + 1, n as int),
                                trees@,
                                ctx_cur,
                                ctx_ns,
                                ctx_def,
                                ctx_stack,
                                fuel,
                            );
                            match sr {
                                Ok(rest) => {
                                    assert(entry_models(out_old) + (seq![(km, rvm)] + rest)
                                        =~= entry_models(out@) + rest);
                                },
                                Err(_) => {},
                            }
                        }
                    },
                    Err(e) => {
                        return Err(e);
                    },
                }
                i = i + 1;
            }
            proof {
                assert(em.subrange(n as int, n as int) =~= Seq::<(KeyM, ValueM)>::empty());
                assert(entry_models(out@) + Seq::<(KeyM, ValueM)>::empty() =~= entry_models(out@));
            }
            Ok(ParsedValue::Subkeys(out))
        },
        ParsedValue::ForeignKey { path, resolved } => {
            match resolved {
                Some(b) => {
                    match resolve_value(b, trees, cur_locale, cur_ns, default, stack, fuel) {
                        Ok(rb) => Ok(
                            ParsedValue::ForeignKey {
                                path: path.clone(),
                                resolved: Some(Box::new(rb)),
                            },
                        ),
                        Err(e) => Err(e),
                    }
                },
                None => {
                    let eff_ns: Option<&Key> = match &path.namespace {
                        Some(k) => Some(k),
                        None => cur_ns,
                    };
                    let ghost names = key_names(path@.keys);
                    proof {
                        assert(key_names(keys_model(path.keys@)).subrange(
                            0,
                            path.keys@.len() as int,
                        ) =~= names);
                    }
                    let here: Option<ParsedValue> = match find_tree(trees, cur_locale, eff_ns) {
                        Some(t) => get_value(t, &path.keys, 0),
                        None => None,
                    };
                    let use_default = here.is_none();
                    let owner: &Key = if use_default {
                        default
                    } else {
                        cur_locale
                    };
                    let tv: Option<ParsedValue> = if use_default {
                        match find_tree(trees, default, eff_ns) {
                            Some(t) => get_value(t, &path.keys, 0),
                            None => None,
                        }
                    } else {
                        here
                    };
                    match tv {
                        None => Err(Error::UndefinedForeignKey(path.clone())),
                        Some(target) => {
                            let ns_clone = match eff_ns {
                                Some(k) => Some(k.clone()),
                                None => None,
                            };
                            let t = Target {
                                locale: owner.clone(),
                                namespace: ns_clone,
                                names: clone_keys(&path.keys),
                            };
                            proof {
                                assert(t@ =~= TargetM {
                                    locale: owner.name@,
                                    namespace: opt_name(eff_ns),
                                    names,
                                });
                            }
                            if stack_contains_exec(stack, &t) {
                                Err(Error::ForeignKeyCycle(path.clone()))
                            } else if fuel == 0 {
                                Err(Error::ForeignKeyCycle(path.clone()))
                            } else {
                                let stack2 = push_target(stack, t);
                                match resolve_value(
                                    &target,
                                    trees,
                                    owner,
                                    eff_ns,
                                    default,
                                    &stack2,
                                    fuel - 1,
                                ) {
                                    Ok(rv) => Ok(
                                        ParsedValue::ForeignKey {
                                            path: path.clone(),
                                            resolved: Some(Box::new(rv)),
                                        },
                                    ),
                                    Err(e) => Err(e),
                                }
                            }
                        },
                    }
                },
            }
        },
    }
}

/// What resolving one locale's whole tree yields: every entry resolved in
/// that locale's own context, starting from an empty stack.
pub open spec fn spec_resolve_locale(
    l: LocaleM,
    trees: TreesM,
    cur_ns: Option<Seq<char>>,
    default: Seq<char>,
) -> Result<LocaleM, ErrM> {
    match spec_resolve_entries(l.keys, trees, l.name, cur_ns, default, Seq::empty(), u64::MAX) {
        Ok(ks) => Ok(LocaleM { name: l.name, keys: ks }),
        Err(e) => Err(e),
    }
}

pub open spec fn spec_resolve_locales(
    ls: Seq<LocaleM>,
    trees: TreesM,
    cur_ns: Option<Seq<char>>,
    default: Seq<char>,
) -> Result<Seq<LocaleM>, ErrM>
    decreases ls.len(),
{
    if ls.len() == 0 {
        Ok(Seq::empty())
    } else {
        match spec_resolve_locale(ls[0], trees, cur_ns, default) {
            Ok(l) => match spec_resolve_locales(
                ls.subrange(1, ls.len() as int),
                trees,
                cur_ns,
                default,
            ) {
                Ok(rest) => Ok(seq![l] + rest),
                Err(e) => Err(e),
            },
            Err(e) => Err(e),
        }
    }
}

pub open spec fn spec_resolve_namespaces(
    nss: Seq<crate::locale::NamespaceM>,
    trees: TreesM,
    default: Seq<char>,
) -> Result<Seq<crate::locale::NamespaceM>, ErrM>
    decreases nss.len(),
{
    if nss.len() == 0 {
        Ok(Seq::empty())
    } else {
        match spec_resolve_locales(nss[0].locales, trees, Some(nss[0].key.name), default) {
            Ok(ls) => match spec_resolve_namespaces(
                nss.subrange(1, nss.len() as int),
                trees,
                default,
            ) {
                Ok(rest) => Ok(
                    seq![crate::locale::NamespaceM { key: nss[0].key, locales: ls }] + rest,
                ),
                Err(e) => Err(e),
            },
            Err(e) => Err(e),
        }
    }
}

/// What the global resolution pass yields: every locale of every namespace,
/// resolved against the full set of input trees.
pub open spec fn spec_resolve_all(trees: TreesM, default: Seq<char>) -> Result<TreesM, ErrM> {
    match trees {
        TreesM::Locales(ls) => match spec_resolve_locales(ls, trees, None, default) {
            Ok(l2) => Ok(TreesM::Locales(l2)),
            Err(e) => Err(e),
        },
        TreesM::Namespaces(nss) => match spec_resolve_namespaces(nss, trees, default) {
            Ok(n2) => Ok(TreesM::Namespaces(n2)),
            Err(e) => Err(e),
        },
    }
}

fn clone_entries(v: &Vec<(Key, ParsedValue)>) -> (r: Vec<(Key, ParsedValue)>)
    ensures
        entry_models(r@) == entry_models(v@),
{
    proof {
        broadcast use crate::value::lemma_entry_models;

    }
    let mut r: Vec<(Key, ParsedValue)> = Vec::new();
    let mut i: usize = 0;
    while i < v.len()
        invariant
            i <= v@.len(),
            r@.len() == i,
            forall|j: int| 0 <= j < i ==> #[trigger] r@[j].0@ == v@[j].0@ && r@[j].1@ == v@[j].1@,
        decreases v@.len() - i,
    {
        r.push((v[i].0.clone(), crate::value::clone_value(&v[i].1)));
        i = i + 1;
    }
    proof {
        assert(entry_models(r@) =~= entry_models(v@));
    }
    r
}

/// Resolves every reference in one locale's tree, in that locale's context.
pub fn resolve_locale(
    l: &Locale,
    trees: &LocalesOrNamespaces,
    cur_ns: Option<&Key>,
    default: &Key,
) -> (r: Result<Locale, Error>)
    ensures
        match r {
            Ok(l2) => spec_resolve_locale(l@, trees@, opt_name(cur_ns), default.name@) == Ok::<
                _,
                ErrM,
            >(l2@),
            Err(e) => spec_resolve_locale(l@, trees@, opt_name(cur_ns), default.name@) == Err::<
                LocaleM,
                _,
            >(e@),
        },
{
    let empty_stack: Vec<Target> = Vec::new();
    proof {
        assert(stack_model(empty_stack@) =~= Seq::<TargetM>::empty());
    }
    let wrapped = ParsedValue::Subkeys(clone_entries(&l.keys));
    match resolve_value(
        &wrapped,
        trees,
        &l.top_locale_name,
        cur_ns,
        default,
        &empty_stack,
        u64::MAX,
    ) {
        Ok(rv) => {
            match rv {
                ParsedValue::Subkeys(ks) => Ok(
                    Locale { top_locale_name: l.top_locale_name.clone(), keys: ks },
                ),
                _ => {
                    proof {
                        assert(false);
                    }
                    Err(Error::UndefinedForeignKey(crate::key::KeyPath::new(None)))
                },
            }
        },
        Err(e) => Err(e),
    }
}

/// Resolves every namespace's locales.
fn resolve_namespace(
    ns: &crate::locale::Namespace,
    trees: &LocalesOrNamespaces,
    default: &Key,
) -> (r: Result<crate::locale::Namespace, Error>)
    ensures
        match r {
            Ok(n2) => spec_resolve_locales(ns@.locales, trees@, Some(ns.key.name@), default.name@)
                == Ok::<_, ErrM>(locale_models(n2.locales@)) && n2@.key == ns@.key,
            Err(e) => spec_resolve_locales(ns@.locales, trees@, Some(ns.key.name@), default.name@)
                == Err::<Seq<LocaleM>, _>(e@),
        },
{
    let ghost lm = locale_models(ns.locales@);
    let n = ns.locales.len();
    proof {
        assert(lm.subrange(0, n as int) =~= lm);
    }
    let mut out: Vec<Locale> = Vec::new();
    let mut i: usize = 0;
    while i < n
        invariant
            i <= n,
            n == ns.locales@.len(),
            lm == locale_models(ns.locales@),
            spec_resolve_locales(lm, trees@, Some(ns.key.name@), default.name@) == (
            match spec_resolve_locales(
                lm.subrange(i as int, n as int),
                trees@,
                Some(ns.key.name@),
                default.name@,
            ) {
                Ok(rest) => Ok::<_, ErrM>(locale_models(out@) + rest),
                Err(e) => Err(e),
            }),
        decreases n - i,
    {
        let ghost tail = lm.subrange(i as int, n as int);
        proof {
            assert(tail[0] == lm[i as int]);
            assert(tail.subrange(1, tail.len() as int) =~= lm.subrange(i as int + 1, n as int));
        }
        match resolve_locale(&ns.locales[i], trees, Some(&ns.key), default) {
            Ok(l2) => {
                let ghost out_old = out@;
                let ghost l2m = l2@;
                out.push(l2);
                proof {
                    assert(locale_models(out@) =~= locale_models(out_old).push(l2m));
                    assert(locale_models(out_old).push(l2m) =~= locale_models(out_old)
                        + seq![l2m]);
                    let sr = spec_resolve_locales(
                        lm.subrange(i as int + 1, n as int),
                        trees@,
                        Some(ns.key.name@),
                        default.name@,
                    );
                    match sr {
                        Ok(rest) => {
                            assert(locale_models(out_old) + (seq![l2m] + rest) =~= locale_models(
                                out@,
                            ) + rest);
                        },
                        Err(_) => {},
                    }
                }
            },
            Err(e) => {
                return Err(e);
            },
        }
        i = i + 1;
    }
    proof {
        assert(lm.subrange(n as int, n as int) =~= Seq::<LocaleM>::empty());
        assert(locale_models(out@) + Seq::<LocaleM>::empty() =~= locale_models(out@));
    }
    Ok(crate::locale::Namespace { key: ns.key.clone(), locales: out })
}

/// The global resolution pass: walks every tree and substitutes every
/// reference, before any merging. Runs once; running it again on its own
/// output hands the output back unchanged.
pub fn resolve_foreign_keys(trees: &LocalesOrNamespaces, default: &Key) -> (r: Result<
    LocalesOrNamespaces,
    Error,
>)
    ensures
        trees_res(r) == spec_resolve_all(trees@, default.name@),
{
    match trees {
        LocalesOrNamespaces::Locales(ls) => {
            let ghost lm = locale_models(ls@);
            let n = ls.len();
            proof {
                assert(lm.subrange(0, n as int) =~= lm);
            }
            let mut out: Vec<Locale> = Vec::new();
            let mut i: usize = 0;
            while i < n
                invariant
                    i <= n,
                    n == ls@.len(),
                    lm == locale_models(ls@),
                    trees is Locales,
                    trees@ == TreesM::Locales(lm),
                    spec_resolve_locales(lm, trees@, None, default.name@) == (
                    match spec_resolve_locales(
                        lm.subrange(i as int, n as int),
                        trees@,
                        None,
                        default.name@,
                    ) {
                        Ok(rest) => Ok::<_, ErrM>(locale_models(out@) + rest),
                        Err(e) => Err(e),
                    }),
                decreases n - i,
            {
                let ghost tail = lm.subrange(i as int, n as int);
                proof {
                    assert(tail[0] == lm[i as int]);
                    assert(tail.subrange(1, tail.len() as int) =~= lm.subrange(
                        i as int + 1,
                        n as int,
                    ));
                }
                match resolve_locale(&ls[i], trees, None, default) {
                    Ok(l2) => {
                        let ghost out_old = out@;
                        let ghost l2m = l2@;
                        out.push(l2);
                        proof {
                            assert(locale_models(out@) =~= locale_models(out_old).push(l2m));
                            assert(locale_models(out_old).push(l2m) =~= locale_models(out_old)
                                + seq![l2m]);
                            let sr = spec_resolve_locales(
                                lm.subrange(i as int + 1, n as int),
                                trees@,
                                None,
                                default.name@,
                            );
                            match sr {
                                Ok(rest) => {
                                    assert(locale_models(out_old) + (seq![l2m] + rest)
                                        =~= locale_models(out@) + rest);
                                },
                                Err(_) => {},
                            }
                        }
                    },
                    Err(e) => {
                        return Err(e);
                    },
                }
                i = i + 1;
            }
            proof {
                assert(lm.subrange(n as int, n as int) =~= Seq::<LocaleM>::empty());
                assert(locale_models(out@) + Seq::<LocaleM>::empty() =~= locale_models(out@));
            }
            Ok(LocalesOrNamespaces::Locales(out))
        },
        LocalesOrNamespaces::Namespaces(nss) => {
            let ghost nm = namespace_models(nss@);
            let n = nss.len();
            proof {
                assert(nm.subrange(0, n as int) =~= nm);
            }
            let mut out: Vec<crate::locale::Namespace> = Vec::new();
            let mut i: usize = 0;
            while i < n
                invariant
                    i <= n,
                    n == nss@.len(),
                    nm == namespace_models(nss@),
                    trees is Namespaces,
                    trees@ == TreesM::Namespaces(nm),
                    spec_resolve_namespaces(nm, trees@, default.name@) == (
                    match spec_resolve_namespaces(
                        nm.subrange(i as int, n as int),
                        trees@,
                        default.name@,
                    ) {
                        Ok(rest) => Ok::<_, ErrM>(namespace_models(out@) + rest),
                        Err(e) => Err(e),
                    }),
                decreases n - i,
            {
                let ghost tail = nm.subrange(i as int, n as int);
                proof {
                    assert(tail[0] == nm[i as int]);
                    assert(tail.subrange(1, tail.len() as int) =~= nm.subrange(
                        i as int + 1,
                        n as int,
                    ));
                }
                match resolve_namespace(&nss[i], trees, default) {
                    Ok(n2) => {
                        let ghost out_old = out@;
                        let ghost n2m = n2@;
                        out.push(n2);
                        proof {
                            assert(namespace_models(out@) =~= namespace_models(out_old).push(
                                n2m,
                            ));
                            assert(namespace_models(out_old).push(n2m) =~= namespace_models(
                                out_old,
                            ) + seq![n2m]);
                            assert(n2m =~= crate::locale::NamespaceM {
                                key: nm[i as int].key,
                                locales: n2m.locales,
                            });
                            let sr = spec_resolve_namespaces(
                                nm.subrange(i as int + 1, n as int),
                                trees@,
                                default.name@,
                            );
                            match sr {
                                Ok(rest) => {
                                    assert(namespace_models(out_old) + (seq![n2m] + rest)
                                        =~= namespace_models(out@) + rest);
                                },
                                Err(_) => {},
                            }
                        }
                    },
                    Err(e) => {
                        return Err(e);
                    },
                }
                i = i + 1;
            }
            proof {
                assert(nm.subrange(n as int, n as int) =~= Seq::<
                    crate::locale::NamespaceM,
                >::empty());
                assert(namespace_models(out@) + Seq::<crate::locale::NamespaceM>::empty()
                    =~= namespace_models(out@));
            }
            Ok(LocalesOrNamespaces::Namespaces(out))
        },
    }
}

/// Every tree of the input, fully resolved.
pub open spec fn spec_locales_resolved(ls: Seq<LocaleM>) -> bool
    decreases ls.len(),
{
    if ls.len() == 0 {
        true
    } else {
        spec_entries_resolved(ls[0].keys) && spec_locales_resolved(
            ls.subrange(1, ls.len() as int),
        )
    }
}

pub open spec fn spec_namespaces_resolved(nss: Seq<crate::locale::NamespaceM>) -> bool
    decreases nss.len(),
{
    if nss.len() == 0 {
        true
    } else {
        spec_locales_resolved(nss[0].locales) && spec_namespaces_resolved(
            nss.subrange(1, nss.len() as int),
        )
    }
}

pub open spec fn spec_trees_resolved(t: TreesM) -> bool {
    match t {
        TreesM::Locales(ls) => spec_locales_resolved(ls),
        TreesM::Namespaces(nss) => spec_namespaces_resolved(nss),
    }
}

proof fn lemma_resolve_locales_noop(
    ls: Seq<LocaleM>,
    trees: TreesM,
    cur_ns: Option<Seq<char>>,
    default: Seq<char>,
)
    requires
        spec_locales_resolved(ls),
    ensures
        spec_resolve_locales(ls, trees, cur_ns, default) == Ok::<_, ErrM>(ls),
    decreases ls.len(),
{
    if ls.len() > 0 {
        lemma_resolve_entries_noop(
            ls[0].keys,
            trees,
            ls[0].name,
            cur_ns,
            default,
            Seq::empty(),
            u64::MAX,
        );
        assert(LocaleM { name: ls[0].name, keys: ls[0].keys } =~= ls[0]);
        lemma_resolve_locales_noop(ls.subrange(1, ls.len() as int), trees, cur_ns, default);
        assert(seq![ls[0]] + ls.subrange(1, ls.len() as int) =~= ls);
    } else {
        assert(ls =~= Seq::<LocaleM>::empty());
    }
}

proof fn lemma_resolve_namespaces_noop(
    nss: Seq<crate::locale::NamespaceM>,
    trees: TreesM,
    default: Seq<char>,
)
    requires
        spec_namespaces_resolved(nss),
    ensures
        spec_resolve_namespaces(nss, trees, default) == Ok::<_, ErrM>(nss),
    decreases nss.len(),
{
    if nss.len() > 0 {
        lemma_resolve_locales_noop(nss[0].locales, trees, Some(nss[0].key.name), default);
        assert(crate::locale::NamespaceM { key: nss[0].key, locales: nss[0].locales }
            =~= nss[0]);
        lemma_resolve_namespaces_noop(nss.subrange(1, nss.len() as int), trees, default);
        assert(seq![nss[0]] + nss.subrange(1, nss.len() as int) =~= nss);
    } else {
        assert(nss =~= Seq::<crate::locale::NamespaceM>::empty());
    }
}

proof fn lemma_resolve_locales_resolves(
    ls: Seq<LocaleM>,
    trees: TreesM,
    cur_ns: Option<Seq<char>>,
    default: Seq<char>,
)
    ensures
        spec_resolve_locales(ls, trees, cur_ns, default) matches Ok(r)
            ==> spec_locales_resolved(r),
    decreases ls.len(),
{
    if ls.len() > 0 {
        lemma_resolve_entries_resolves(
            ls[0].keys,
            trees,
            ls[0].name,
            cur_ns,
            default,
            Seq::empty(),
            u64::MAX,
        );
        lemma_resolve_locales_resolves(ls.subrange(1, ls.len() as int), trees, cur_ns, default);
        let h = spec_resolve_locale(ls[0], trees, cur_ns, default);
        let t = spec_resolve_locales(ls.subrange(1, ls.len() as int), trees, cur_ns, default);
        match (h, t) {
            (Ok(l), Ok(rest)) => {
                let whole = seq![l] + rest;
                assert(whole[0] == l);
                assert(whole.subrange(1, whole.len() as int) =~= rest);
            },
            _ => {},
        }
    }
}

proof fn lemma_resolve_namespaces_resolves(
    nss: Seq<crate::locale::NamespaceM>,
    trees: TreesM,
    default: Seq<char>,
)
    ensures
        spec_resolve_namespaces(nss, trees, default) matches Ok(r)
            ==> spec_namespaces_resolved(r),
    decreases nss.len(),
{
    if nss.len() > 0 {
        lemma_resolve_locales_resolves(nss[0].locales, trees, Some(nss[0].key.name), default);
        lemma_resolve_namespaces_resolves(nss.subrange(1, nss.len() as int), trees, default);
        let h = spec_resolve_locales(nss[0].locales, trees, Some(nss[0].key.name), default);
        let t = spec_resolve_namespaces(nss.subrange(1, nss.len() as int), trees, default);
        match (h, t) {
            (Ok(ls), Ok(rest)) => {
                let whole = seq![crate::locale::NamespaceM { key: nss[0].key, locales: ls }]
                    + rest;
                assert(whole[0].locales == ls);
                assert(whole.subrange(1, whole.len() as int) =~= rest);
            },
            _ => {},
        }
    }
}

/// What the global pass hands back holds no unresolved reference anywhere.
pub proof fn lemma_resolve_all_resolves(trees: TreesM, default: Seq<char>)
    ensures
        spec_resolve_all(trees, default) matches Ok(t2) ==> spec_trees_resolved(t2),
{
    match trees {
        TreesM::Locales(ls) => {
            lemma_resolve_locales_resolves(ls, trees, None, default);
        },
        TreesM::Namespaces(nss) => {
            lemma_resolve_namespaces_resolves(nss, trees, default);
        },
    }
}

/// The global pass is a no-op on fully resolved input.
pub proof fn lemma_resolve_all_noop(trees: TreesM, default: Seq<char>)
    requires
        spec_trees_resolved(trees),
    ensures
        spec_resolve_all(trees, default) == Ok::<_, ErrM>(trees),
{
    match trees {
        TreesM::Locales(ls) => {
            lemma_resolve_locales_noop(ls, trees, None, default);
        },
        TreesM::Namespaces(nss) => {
            lemma_resolve_namespaces_noop(nss, trees, default);
        },
    }
}

/// Foreign-key resolution is idempotent: resolving a second time yields
/// exactly what the first, successful resolution yielded.
pub proof fn lemma_resolution_idempotent(trees: TreesM, default: Seq<char>)
    ensures
        spec_resolve_all(trees, default) matches Ok(t2) ==> spec_resolve_all(t2, default) == Ok::<
            _,
            ErrM,
        >(t2),
{
    match spec_resolve_all(trees, default) {
        Ok(t2) => {
            lemma_resolve_all_resolves(trees, default);
            lemma_resolve_all_noop(t2, default);
        },
        Err(_) => {},
    }
}

} // verus!
