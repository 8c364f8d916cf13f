use vstd::prelude::*;
use crate::error::Error;
use crate::error::ErrM;
use crate::key::Key;
use crate::key::KeyM;
use crate::key::KeyPath;
use crate::key::PathM;
use crate::plural::sels_of;
use crate::plural::spec_has_fallback;
use crate::plural::spec_overlapping;
use crate::plural::check_arms;
use crate::value::arm_models;
use crate::value::ParsedValue;
use crate::value::Selector;
use crate::value::ValueM;

verus! {

/// Ghost model of an interpolation signature: which argument names a key's
/// accessor must accept, by kind. A name carries exactly one kind; the kinds
/// never share a name in a well-formed signature.
#[verifier::ext_equal]
pub struct SigM {
    pub variables: Set<Seq<char>>,
    pub components: Set<Seq<char>>,
    pub counts: Set<Seq<char>>,
}

/// The signature demanding nothing: a plain string's.
pub open spec fn sig_empty() -> SigM {
    SigM { variables: Set::empty(), components: Set::empty(), counts: Set::empty() }
}

/// The set of names a run of keys carries.
pub open spec fn names_set(ks: Seq<Key>) -> Set<Seq<char>> {
    Set::new(|n: Seq<char>| exists|i: int| 0 <= i < ks.len() && ks[i].name@ == n)
}

/// No two keys of the run share a name.
pub open spec fn nodup_names(ks: Seq<Key>) -> bool {
    forall|i: int, j: int| 0 <= i < j < ks.len() ==> ks[i].name@ != ks[j].name@
}

/// An interpolation signature: the union, across all locales, of the
/// variables, components and plural count arguments a key's value uses. Each
/// vector lists each name once, in the order first seen; contracts speak of
/// the name sets.
#[derive(PartialEq, Eq)]
pub struct InterpolationSig {
    pub variables: Vec<Key>,
    pub components: Vec<Key>,
    pub counts: Vec<Key>,
}

impl View for InterpolationSig {
    type V = SigM;

    open spec fn view(&self) -> SigM {
        SigM {
            variables: names_set(self.variables@),
            components: names_set(self.components@),
            counts: names_set(self.counts@),
        }
    }
}

impl InterpolationSig {
    /// The well-formedness the engine maintains: no duplicates inside a kind
    /// and no name carried by two kinds.
    pub open spec fn wf(&self) -> bool {
        &&& nodup_names(self.variables@)
        &&& nodup_names(self.components@)
        &&& nodup_names(self.counts@)
        &&& sig_wf(self@)
    }
}

/// The kinds of a signature never share a name.
pub open spec fn sig_wf(s: SigM) -> bool {
    &&& s.variables.disjoint(s.components)
    &&& s.variables.disjoint(s.counts)
    &&& s.components.disjoint(s.counts)
}

/// Whether a signature demands nothing.
pub open spec fn sig_is_empty(s: SigM) -> bool {
    s.variables =~= Set::<Seq<char>>::empty() && s.components =~= Set::<Seq<char>>::empty()
        && s.counts =~= Set::<Seq<char>>::empty()
}

/// Two signatures agree on kinds: no name of one carries a different kind in
/// the other. Same-named arguments used inconsistently across locales are the
/// hard error this guards.
pub open spec fn sigs_compatible(a: SigM, b: SigM) -> bool {
    &&& a.variables.disjoint(b.components)
    &&& a.variables.disjoint(b.counts)
    &&& a.components.disjoint(b.variables)
    &&& a.components.disjoint(b.counts)
    &&& a.counts.disjoint(b.variables)
    &&& a.counts.disjoint(b.components)
}

/// The kind-wise union of two signatures.
pub open spec fn sig_union(a: SigM, b: SigM) -> SigM {
    SigM {
        variables: a.variables.union(b.variables),
        components: a.components.union(b.components),
        counts: a.counts.union(b.counts),
    }
}

/// Whether the run carries the name.
#[verifier::loop_isolation(false)]
fn contains_name(ks: &Vec<Key>, name: &Key) -> (r: bool)
    ensures
        r == names_set(ks@).contains(name.name@),
{
    let n = ks.len();
    let mut i: usize = 0;
    while i < n
        invariant
            i <= n,
            n == ks@.len(),
            forall|j: int| 0 <= j < i ==> ks@[j].name@ != name.name@,
        decreases n - i,
    {
        if ks[i].name.eq(&name.name) {
            proof {
                assert(names_set(ks@).contains(name.name@));
            }
            return true;
        }
        i = i + 1;
    }
    proof {
        assert(!names_set(ks@).contains(name.name@));
    }
    false
}

proof fn lemma_names_set_push(ks: Seq<Key>, k: Key)
    ensures
        names_set(ks.push(k)) =~= names_set(ks).insert(k.name@),
{
    let a = names_set(ks.push(k));
    let b = names_set(ks).insert(k.name@);
    assert forall|n: Seq<char>| a.contains(n) implies b.contains(n) by {
        let i = choose|i: int| 0 <= i < ks.push(k).len() && ks.push(k)[i].name@ == n;
        if i < ks.len() {
            assert(ks[i].name@ == n);
        }
    }
    assert forall|n: Seq<char>| b.contains(n) implies a.contains(n) by {
        if names_set(ks).contains(n) {
            let i = choose|i: int| 0 <= i < ks.len() && ks[i].name@ == n;
            assert(ks.push(k)[i].name@ == n);
        } else {
            assert(ks.push(k)[ks.len() as int].name@ == n);
        }
    }
}

/// Adds a name of the given kind into the signature's vector, once.
#[verifier::loop_isolation(false)]
fn add_name(ks: &mut Vec<Key>, k: &Key)
    requires
        nodup_names(old(ks)@),
    ensures
        nodup_names(final(ks)@),
        names_set(final(ks)@) == names_set(old(ks)@).insert(k.name@),
{
    if !contains_name(ks, k) {
        let ghost old_ks = ks@;
        ks.push(k.clone());
        proof {
            lemma_names_set_push(old_ks, ks@.last());
            assert(names_set(ks@) =~= names_set(old_ks).insert(k.name@));
            assert forall|i: int, j: int|
                0 <= i < j < ks@.len() implies ks@[i].name@ != ks@[j].name@ by {
                if j == ks@.len() - 1 {
                    assert(!names_set(old_ks).contains(k.name@));
                    assert(old_ks[i].name@ != k.name@);
                }
            }
        }
    } else {
        proof {
            assert(names_set(ks@).insert(k.name@) =~= names_set(ks@));
        }
    }
}

proof fn lemma_compat_union_right(a: SigM, b: SigM, c: SigM)
    ensures
        sigs_compatible(a, sig_union(b, c)) <==> (sigs_compatible(a, b) && sigs_compatible(a, c)),
{
    assert(a.variables.disjoint(b.components.union(c.components)) <==> (a.variables.disjoint(
        b.components,
    ) && a.variables.disjoint(c.components)));
    assert(a.variables.disjoint(b.counts.union(c.counts)) <==> (a.variables.disjoint(b.counts)
        && a.variables.disjoint(c.counts)));
    assert(a.components.disjoint(b.variables.union(c.variables)) <==> (a.components.disjoint(
        b.variables,
    ) && a.components.disjoint(c.variables)));
    assert(a.components.disjoint(b.counts.union(c.counts)) <==> (a.components.disjoint(b.counts)
        && a.components.disjoint(c.counts)));
    assert(a.counts.disjoint(b.variables.union(c.variables)) <==> (a.counts.disjoint(b.variables)
        && a.counts.disjoint(c.variables)));
    assert(a.counts.disjoint(b.components.union(c.components)) <==> (a.counts.disjoint(
        b.components,
    ) && a.counts.disjoint(c.components)));
}

proof fn lemma_compat_union_left(a: SigM, b: SigM, c: SigM)
    ensures
        sigs_compatible(sig_union(a, b), c) <==> (sigs_compatible(a, c) && sigs_compatible(b, c)),
{
    assert(a.variables.union(b.variables).disjoint(c.components) <==> (a.variables.disjoint(
        c.components,
    ) && b.variables.disjoint(c.components)));
    assert(a.variables.union(b.variables).disjoint(c.counts) <==> (a.variables.disjoint(c.counts)
        && b.variables.disjoint(c.counts)));
    assert(a.components.union(b.components).disjoint(c.variables) <==> (a.components.disjoint(
        c.variables,
    ) && b.components.disjoint(c.variables)));
    assert(a.components.union(b.components).disjoint(c.counts) <==> (a.components.disjoint(
        c.counts,
    ) && b.components.disjoint(c.counts)));
    assert(a.counts.union(b.counts).disjoint(c.variables) <==> (a.counts.disjoint(c.variables)
        && b.counts.disjoint(c.variables)));
    assert(a.counts.union(b.counts).disjoint(c.components) <==> (a.counts.disjoint(c.components)
        && b.counts.disjoint(c.components)));
}

proof fn lemma_union_wf(a: SigM, b: SigM)
    requires
        sig_wf(a),
        sig_wf(b),
        sigs_compatible(a, b),
    ensures
        sig_wf(sig_union(a, b)),
{
}

/// The signature one value contributes, with the plural validation the merge
/// enforces per key per locale: overlapping arms first, then a missing
/// catch-all, then each arm reduced in order, then agreement of kinds across
/// arms, and finally the count argument's own kind.
pub open spec fn spec_reduce(v: ValueM, path: PathM) -> Result<SigM, ErrM>
    decreases v,
{
    match v {
        ValueM::Str(_) => Ok(sig_empty()),
        ValueM::Variable(k) => Ok(
            SigM {
                variables: Set::empty().insert(k.name),
                components: Set::empty(),
                counts: Set::empty(),
            },
        ),
        ValueM::Component { key, body } => match spec_reduce(*body, path) {
            Ok(s) => if !s.variables.contains(key.name) && !s.counts.contains(key.name) {
                Ok(
                    SigM {
                        variables: s.variables,
                        components: s.components.insert(key.name),
                        counts: s.counts,
                    },
                )
            } else {
                Err(ErrM::LocaleKeyTypeMismatch(path))
            },
            Err(e) => Err(e),
        },
        ValueM::Plural { count, arms } => {
            if spec_overlapping(sels_of(arms)) {
                Err(ErrM::OverlappingPluralSelectors(path))
            } else if !spec_has_fallback(sels_of(arms)) {
                Err(ErrM::NonExhaustivePlural(path))
            } else {
                match spec_reduce_arms(arms, path) {
                    Ok(s) => if !s.variables.contains(count.name) && !s.components.contains(
                        count.name,
                    ) {
                        Ok(
                            SigM {
                                variables: s.variables,
                                components: s.components,
                                counts: s.counts.insert(count.name),
                            },
                        )
                    } else {
                        Err(ErrM::LocaleKeyTypeMismatch(path))
                    },
                    Err(e) => Err(e),
                }
            }
        },
        ValueM::ForeignKey { path: _, resolved } => match resolved {
            Some(b) => spec_reduce(*b, path),
            None => Err(ErrM::UndefinedForeignKey(path)),
        },
        ValueM::Subkeys(_) => Err(ErrM::LocaleKeyTypeMismatch(path)),
    }
}

/// The union of the arms' signatures; arms that disagree on a name's kind
/// are the same hard error as disagreeing locales.
pub open spec fn spec_reduce_arms(arms: Seq<(Selector, ValueM)>, path: PathM) -> Result<
    SigM,
    ErrM,
>
    decreases arms,
{
    if arms.len() == 0 {
        Ok(sig_empty())
    } else {
        match spec_reduce(arms[0].1, path) {
            Ok(s0) => match spec_reduce_arms(arms.subrange(1, arms.len() as int), path) {
                Ok(s1) => if sigs_compatible(s0, s1) {
                    Ok(sig_union(s0, s1))
                } else {
                    Err(ErrM::LocaleKeyTypeMismatch(path))
                },
                Err(e) => Err(e),
            },
            Err(e) => Err(e),
        }
    }
}

/// A signature the reduction hands back never gives one name two kinds.
pub proof fn lemma_reduce_wf(v: ValueM, path: PathM)
    ensures
        spec_reduce(v, path) matches Ok(s) ==> sig_wf(s),
    decreases v,
{
    match v {
        ValueM::Component { key, body } => {
            lemma_reduce_wf(*body, path);
        },
        ValueM::Plural { count, arms } => {
            lemma_reduce_arms_wf(arms, path);
        },
        ValueM::ForeignKey { path: _, resolved } => {
            match resolved {
                Some(b) => {
                    lemma_reduce_wf(*b, path);
                },
                None => {},
            }
        },
        _ => {},
    }
}

proof fn lemma_reduce_arms_wf(arms: Seq<(Selector, ValueM)>, path: PathM)
    ensures
        spec_reduce_arms(arms, path) matches Ok(s) ==> sig_wf(s),
    decreases arms,
{
    if arms.len() > 0 {
        lemma_reduce_wf(arms[0].1, path);
        lemma_reduce_arms_wf(arms.subrange(1, arms.len() as int), path);
        match (spec_reduce(arms[0].1, path), spec_reduce_arms(
            arms.subrange(1, arms.len() as int),
            path,
        )) {
            (Ok(s0), Ok(s1)) => {
                if sigs_compatible(s0, s1) {
                    lemma_union_wf(s0, s1);
                }
            },
            _ => {},
        }
    }
}

/// Whether the two runs share a name.
#[verifier::loop_isolation(false)]
fn any_common(xs: &Vec<Key>, ys: &Vec<Key>) -> (r: bool)
    ensures
        r == !names_set(xs@).disjoint(names_set(ys@)),
{
    let n = xs.len();
    let mut i: usize = 0;
    while i < n
        invariant
            i <= n,
            n == xs@.len(),
            forall|j: int| 0 <= j < i ==> !names_set(ys@).contains(#[trigger] xs@[j].name@),
        decreases n - i,
    {
        if contains_name(ys, &xs[i]) {
            proof {
                assert(names_set(xs@).contains(xs@[i as int].name@));
            }
            return true;
        }
        i = i + 1;
    }
    proof {
        assert forall|m: Seq<char>| names_set(xs@).contains(m) implies !names_set(ys@).contains(
            m,
        ) by {
            let j = choose|j: int| 0 <= j < xs@.len() && xs@[j].name@ == m;
            assert(!names_set(ys@).contains(xs@[j].name@));
        }
    }
    false
}

/// Whether two signatures agree on every shared name's kind.
fn sigs_compatible_exec(a: &InterpolationSig, b: &InterpolationSig) -> (r: bool)
    ensures
        r == sigs_compatible(a@, b@),
{
    !any_common(&a.variables, &b.components) && !any_common(&a.variables, &b.counts)
        && !any_common(&a.components, &b.variables) && !any_common(&a.components, &b.counts)
        && !any_common(&a.counts, &b.variables) && !any_common(&a.counts, &b.components)
}

#[verifier::loop_isolation(false)]
fn union_names(xs: &mut Vec<Key>, ys: &Vec<Key>)
    requires
        nodup_names(old(xs)@),
    ensures
        nodup_names(final(xs)@),
        names_set(final(xs)@) == names_set(old(xs)@).union(names_set(ys@)),
{
    let n = ys.len();
    let mut i: usize = 0;
    while i < n
        invariant
            i <= n,
            n == ys@.len(),
            nodup_names(xs@),
            names_set(xs@) == names_set(old(xs)@).union(names_set(ys@.subrange(0, i as int))),
        decreases n - i,
    {
        proof {
            assert(names_set(ys@.subrange(0, 0)) =~= Set::<Seq<char>>::empty());
        }
        let ghost before = names_set(xs@);
        add_name(xs, &ys[i]);
        proof {
            assert(ys@.subrange(0, i as int + 1) =~= ys@.subrange(0, i as int).push(
                ys@[i as int],
            ));
            lemma_names_set_push(ys@.subrange(0, i as int), ys@[i as int]);
            assert(names_set(xs@) =~= names_set(old(xs)@).union(
                names_set(ys@.subrange(0, i as int + 1)),
            ));
        }
        i = i + 1;
    }
    proof {
        assert(names_set(ys@.subrange(0, 0)) =~= Set::<Seq<char>>::empty());
        assert(names_set(old(xs)@).union(Set::<Seq<char>>::empty()) =~= names_set(old(xs)@));
        assert(ys@.subrange(0, n as int) =~= ys@);
    }
}

/// The kind-wise union of two agreeing signatures.
fn sig_union_exec(a: InterpolationSig, b: &InterpolationSig) -> (r: InterpolationSig)
    requires
        a.wf(),
        b.wf(),
        sigs_compatible(a@, b@),
    ensures
        r.wf(),
        r@ == sig_union(a@, b@),
{
    let ghost a0 = a@;
    let mut a = a;
    union_names(&mut a.variables, &b.variables);
    union_names(&mut a.components, &b.components);
    union_names(&mut a.counts, &b.counts);
    proof {
        assert(a@ =~= sig_union(a0, b@));
        lemma_union_wf(a0, b@);
    }
    a
}

/// Reduces one locale's value for one key: validates its plural constructs
/// and computes the interpolation signature its accessor needs.
#[verifier::loop_isolation(false)]
pub fn reduce_value(v: &ParsedValue, path: &KeyPath) -> (r: Result<InterpolationSig, Error>)
    ensures
        match r {
            Ok(s) => spec_reduce(v@, path@) == Ok::<_, ErrM>(s@) && s.wf(),
            Err(e) => spec_reduce(v@, path@) == Err::<SigM, _>(e@),
        },
    decreases *v,
{
    match v {
        ParsedValue::Str(_) => {
            let s = InterpolationSig {
                variables: Vec::new(),
                components: Vec::new(),
                counts: Vec::new(),
            };
            proof {
                assert(s@.variables =~= Set::<Seq<char>>::empty());
                assert(s@.components =~= Set::<Seq<char>>::empty());
                assert(s@.counts =~= Set::<Seq<char>>::empty());
                assert(s@ =~= sig_empty());
            }
            Ok(s)
        },
        ParsedValue::Variable(k) => {
            let mut vars: Vec<Key> = Vec::new();
            vars.push(k.clone());
            let s = InterpolationSig { variables: vars, components: Vec::new(), counts: Vec::new() };
            proof {
                assert(s.variables@[0].name@ == k.name@);
                assert(names_set(s.variables@).contains(k.name@));
                assert forall|n: Seq<char>|
                    names_set(s.variables@).contains(n) implies n == k.name@ by {
                    let i = choose|i: int| 0 <= i < s.variables@.len() && s.variables@[i].name@
                        == n;
                }
                assert(s@.variables =~= Set::<Seq<char>>::empty().insert(k.name@));
                assert(s@.components =~= Set::<Seq<char>>::empty());
                assert(s@.counts =~= Set::<Seq<char>>::empty());
                assert(s@ =~= SigM {
                    variables: Set::empty().insert(k@.name),
                    components: Set::empty(),
                    counts: Set::empty(),
                });
            }
            Ok(s)
        },
        ParsedValue::Component { key, body } => {
            match reduce_value(body, path) {
                Ok(s) => {
                    if contains_name(&s.variables, key) || contains_name(&s.counts, key) {
                        Err(Error::LocaleKeyTypeMismatch(path.clone()))
                    } else {
                        let ghost s0 = s@;
                        let mut s = s;
                        add_name(&mut s.components, key);
                        proof {
                            assert(s@ =~= SigM {
                                variables: s0.variables,
                                components: s0.components.insert(key@.name),
                                counts: s0.counts,
                            });
                        }
                        Ok(s)
                    }
                },
                Err(e) => Err(e),
            }
        },
        ParsedValue::Plural { count, arms } => {
            let ghost am = arm_models(arms@);
            proof {
                broadcast use crate::value::lemma_arm_models;

                assert(am.subrange(0, am.len() as int) =~= am);
            }
            let mut errs = check_arms(path, arms);
            if errs.len() > 0 {
                let e = errs.remove(0);
                return Err(e);
            }
            let n = arms.len();
            let mut acc = InterpolationSig {
                variables: Vec::new(),
                components: Vec::new(),
                counts: Vec::new(),
            };
            let mut conflict = false;
            proof {
                assert(acc@.variables =~= Set::<Seq<char>>::empty());
                assert(acc@.components =~= Set::<Seq<char>>::empty());
                assert(acc@.counts =~= Set::<Seq<char>>::empty());
                assert(acc@ =~= sig_empty());
                match spec_reduce_arms(am, path@) {
                    Ok(rest) => {
                        assert(sigs_compatible(acc@, rest));
                        assert(sig_union(acc@, rest) =~= rest);
                    },
                    Err(_) => {},
                }
            }
            let mut i: usize = 0;
            while i < n
                invariant
                    i <= n,
                    n == am.len(),
                    acc.wf(),
                    match spec_reduce_arms(am.subrange(i as int, n as int), path@) {
                        Ok(rest) => spec_reduce_arms(am, path@) == (if !conflict
                            && sigs_compatible(acc@, rest) {
                            Ok::<_, ErrM>(sig_union(acc@, rest))
                        } else {
                            Err::<SigM, _>(ErrM::LocaleKeyTypeMismatch(path@))
                        }),
                        Err(e) => spec_reduce_arms(am, path@) == Err::<SigM, _>(e),
                    },
                decreases n - i,
            {
                let ghost tail = am.subrange(i as int, n as int);
                proof {
                    assert(tail[0] == am[i as int]);
                    assert(tail.subrange(1, tail.len() as int) =~= am.subrange(
                        i as int + 1,
                        n as int,
                    ));
                    assert(decreases_to!(*v => (*v)->arms));
                    assert((*v)->arms == *arms);
                    assert(decreases_to!(*arms => arms@));
                    assert(decreases_to!(arms@ => arms@[i as int]));
                    assert(decreases_to!(arms@[i as int] => arms@[i as int].1));
                }
                match reduce_value(&arms[i].1, path) {
                    Err(e) => {
                        return Err(e);
                    },
                    Ok(si) => {
                        let ghost acc_old = acc@;
                        let ghost sim = si@;
                        if conflict {
                        } else if !sigs_compatible_exec(&acc, &si) {
                            conflict = true;
                        } else {
                            acc = sig_union_exec(acc, &si);
                        }
                        proof {
                            let sr_next = spec_reduce_arms(
                                am.subrange(i as int + 1, n as int),
                                path@,
                            );
                            match sr_next {
                                Ok(rest2) => {
                                    lemma_compat_union_right(acc_old, sim, rest2);
                                    lemma_compat_union_left(acc_old, sim, rest2);
                                    lemma_compat_union_left(sim, acc_old, rest2);
                                    assert(sig_union(sig_union(acc_old, sim), rest2)
                                        =~= sig_union(acc_old, sig_union(sim, rest2)));
                                },
                                Err(_) => {},
                            }
                        }
                    },
                }
                i = i + 1;
            }
            proof {
                assert(am.subrange(n as int, n as int) =~= Seq::<(Selector, ValueM)>::empty());
                assert(sigs_compatible(acc@, sig_empty()));
                assert(sig_union(acc@, sig_empty()) =~= acc@);
            }
            if conflict {
                return Err(Error::LocaleKeyTypeMismatch(path.clone()));
            }
            if contains_name(&acc.variables, count) || contains_name(&acc.components, count) {
                return Err(Error::LocaleKeyTypeMismatch(path.clone()));
            }
            let ghost acc0 = acc@;
            add_name(&mut acc.counts, count);
            proof {
                assert(acc@ =~= SigM {
                    variables: acc0.variables,
                    components: acc0.components,
                    counts: acc0.counts.insert(count@.name),
                });
            }
            Ok(acc)
        },
        ParsedValue::ForeignKey { path: _, resolved } => match resolved {
            Some(b) => reduce_value(b, path),
            None => Err(Error::UndefinedForeignKey(path.clone())),
        },
        ParsedValue::Subkeys(_) => Err(Error::LocaleKeyTypeMismatch(path.clone())),
    }
}

/// Ghost model of the merged, cross-locale classification of one key.
#[verifier::ext_equal]
pub enum LocaleValueM {
    /// A leaf: plain when its signature demands nothing, parameterized
    /// otherwise.
    Value(SigM),
    /// A nested scope of keys.
    Subkeys(Seq<(KeyM, LocaleValueM)>),
}

/// The merged classification of one key, as handed to the code generator:
/// `Value(None)` for a key plain in every locale, `Value(Some(sig))` when at
/// least one locale parameterizes it, `Subkeys` for a nested scope.
#[derive(PartialEq, Eq)]
pub enum LocaleValue {
    Value(Option<InterpolationSig>),
    Subkeys { keys: BuildersKeysInner },
}

/// One nesting scope of the unified schema, keyed in the default locale's
/// authored order.
#[derive(PartialEq, Eq)]
pub struct BuildersKeysInner(pub Vec<(Key, LocaleValue)>);

/// The model of one merged classification.
pub open spec fn locale_value_model(lv: LocaleValue) -> LocaleValueM
    decreases lv,
{
    match lv {
        LocaleValue::Value(None) => LocaleValueM::Value(sig_empty()),
        LocaleValue::Value(Some(s)) => LocaleValueM::Value(s@),
        LocaleValue::Subkeys { keys } => LocaleValueM::Subkeys(schema_models(keys.0@)),
    }
}

/// The models of one scope's entries, in order.
pub open spec fn schema_models(s: Seq<(Key, LocaleValue)>) -> Seq<(KeyM, LocaleValueM)>
    decreases s,
{
    if s.len() == 0 {
        Seq::empty()
    } else {
        seq![(s[0].0@, locale_value_model(s[0].1))] + schema_models(s.subrange(1, s.len() as int))
    }
}

pub broadcast proof fn lemma_schema_models(s: Seq<(Key, LocaleValue)>)
    ensures
        (#[trigger] schema_models(s)).len() == s.len(),
        forall|i: int|
            0 <= i < s.len() ==> schema_models(s)[i] == (s[i].0@, locale_value_model(s[i].1)),
    decreases s,
{
    if s.len() > 0 {
        lemma_schema_models(s.subrange(1, s.len() as int));
    }
}

impl View for BuildersKeysInner {
    type V = Seq<(KeyM, LocaleValueM)>;

    open spec fn view(&self) -> Seq<(KeyM, LocaleValueM)> {
        schema_models(self.0@)
    }
}

impl View for LocaleValue {
    type V = LocaleValueM;

    open spec fn view(&self) -> LocaleValueM {
        locale_value_model(*self)
    }
}

/// The representation discipline of a schema: a `Value(Some(_))` always
/// demands something (an empty demand is `Value(None)`), and every signature
/// is well-formed.
pub open spec fn lv_exec_wf(lv: LocaleValue) -> bool
    decreases lv,
{
    match lv {
        LocaleValue::Value(None) => true,
        LocaleValue::Value(Some(s)) => s.wf() && !sig_is_empty(s@),
        LocaleValue::Subkeys { keys } => schema_exec_wf(keys.0@),
    }
}

pub open spec fn schema_exec_wf(s: Seq<(Key, LocaleValue)>) -> bool
    decreases s,
{
    forall|i: int| 0 <= i < s.len() ==> lv_exec_wf(#[trigger] s[i].1)
}

/// What walking the default locale's tree yields: its canonical structure,
/// each key classified, each value reduced; a key whose default value is the
/// empty literal has no usable default rendering and is a hard error.
pub open spec fn spec_build_keys(entries: Seq<(KeyM, ValueM)>, path: PathM) -> Result<
    Seq<(KeyM, LocaleValueM)>,
    ErrM,
>
    decreases entries,
{
    if entries.len() == 0 {
        Ok(Seq::empty())
    } else {
        let k = entries[0].0;
        let v = entries[0].1;
        let cpath = PathM { namespace: path.namespace, keys: path.keys.push(k) };
        let head: Result<LocaleValueM, ErrM> = match v {
            ValueM::Str(s) => if s.len() == 0 {
                Err(ErrM::MissingDefaultValue(cpath))
            } else {
                Ok(LocaleValueM::Value(sig_empty()))
            },
            ValueM::Subkeys(es) => match spec_build_keys(es, cpath) {
                Ok(inner) => Ok(LocaleValueM::Subkeys(inner)),
                Err(e) => Err(e),
            },
            _ => match spec_reduce(v, cpath) {
                Ok(sig) => Ok(LocaleValueM::Value(sig)),
                Err(e) => Err(e),
            },
        };
        match head {
            Ok(h) => match spec_build_keys(entries.subrange(1, entries.len() as int), path) {
                Ok(rest) => Ok(seq![(k, h)] + rest),
                Err(e) => Err(e),
            },
            Err(e) => Err(e),
        }
    }
}

/// The first value an unnested name reaches in a tree.
pub open spec fn spec_lookup_value(entries: Seq<(KeyM, ValueM)>, name: Seq<char>) -> Option<
    ValueM,
>
    decreases entries,
{
    if entries.len() == 0 {
        None
    } else if entries[0].0.name == name {
        Some(entries[0].1)
    } else {
        spec_lookup_value(entries.subrange(1, entries.len() as int), name)
    }
}

/// Whether a scope of the schema holds the name.
pub open spec fn spec_schema_has_name(schema: Seq<(KeyM, LocaleValueM)>, name: Seq<char>) -> bool {
    exists|i: int| 0 <= i < schema.len() && schema[i].0.name == name
}

/// The surplus warnings one locale's scope yields: one per key the locale
/// defines that the default locale's scope does not, in authored order; such
/// keys are discarded.
pub open spec fn spec_surplus(
    lkeys: Seq<(KeyM, ValueM)>,
    schema: Seq<(KeyM, LocaleValueM)>,
    lname: Seq<char>,
    path: PathM,
) -> Seq<crate::error::WarnM>
    decreases lkeys,
{
    if lkeys.len() == 0 {
        Seq::empty()
    } else {
        let rest = spec_surplus(lkeys.subrange(1, lkeys.len() as int), schema, lname, path);
        if spec_schema_has_name(schema, lkeys[0].0.name) {
            rest
        } else {
            seq![
                crate::error::WarnM::SurplusKey {
                    locale: lname,
                    path: PathM { namespace: path.namespace, keys: path.keys.push(lkeys[0].0) },
                },
            ] + rest
        }
    }
}

/// What merging one locale against the schema's keys yields: per key, a
/// missing or explicitly defaulted value warns and falls back; a nested scope
/// merges recursively; a leaf reduces and folds its signature into the union;
/// a shape disagreement with the default locale is a hard error.
pub open spec fn spec_merge_entries(
    schema: Seq<(KeyM, LocaleValueM)>,
    lkeys: Seq<(KeyM, ValueM)>,
    lname: Seq<char>,
    path: PathM,
) -> Result<(Seq<(KeyM, LocaleValueM)>, Seq<crate::error::WarnM>), ErrM>
    decreases schema, 0int,
{
    if schema.len() == 0 {
        Ok((Seq::empty(), Seq::empty()))
    } else {
        let k = schema[0].0;
        let lv = schema[0].1;
        let cpath = PathM { namespace: path.namespace, keys: path.keys.push(k) };
        let head: Result<(LocaleValueM, Seq<crate::error::WarnM>), ErrM> = match spec_lookup_value(
            lkeys,
            k.name,
        ) {
            None => Ok(
                (lv, seq![crate::error::WarnM::MissingKey { locale: lname, path: cpath }]),
            ),
            Some(v) => if v == ValueM::Str(Seq::<char>::empty()) {
                Ok((lv, seq![crate::error::WarnM::MissingKey { locale: lname, path: cpath }]))
            } else {
                match lv {
                    LocaleValueM::Subkeys(inner) => match v {
                        ValueM::Subkeys(les) => match spec_merge_locale(
                            inner,
                            les,
                            lname,
                            cpath,
                        ) {
                            Ok((inner2, w)) => Ok((LocaleValueM::Subkeys(inner2), w)),
                            Err(e) => Err(e),
                        },
                        _ => Err(ErrM::LocaleKeyTypeMismatch(cpath)),
                    },
                    LocaleValueM::Value(sig) => match v {
                        ValueM::Subkeys(_) => Err(ErrM::LocaleKeyTypeMismatch(cpath)),
                        _ => match spec_reduce(v, cpath) {
                            Ok(s2) => if sigs_compatible(sig, s2) {
                                Ok((LocaleValueM::Value(sig_union(sig, s2)), Seq::empty()))
                            } else {
                                Err(ErrM::LocaleKeyTypeMismatch(cpath))
                            },
                            Err(e) => Err(e),
                        },
                    },
                }
            },
        };
        match head {
            Ok((h, w)) => match spec_merge_entries(
                schema.subrange(1, schema.len() as int),
                lkeys,
                lname,
                path,
            ) {
                Ok((rest, w2)) => Ok((seq![(k, h)] + rest, w + w2)),
                Err(e) => Err(e),
            },
            Err(e) => Err(e),
        }
    }
}

/// Merging one locale's scope: its keys folded into the schema's, then one
/// surplus warning per key of its own the schema does not know.
pub open spec fn spec_merge_locale(
    schema: Seq<(KeyM, LocaleValueM)>,
    lkeys: Seq<(KeyM, ValueM)>,
    lname: Seq<char>,
    path: PathM,
) -> Result<(Seq<(KeyM, LocaleValueM)>, Seq<crate::error::WarnM>), ErrM>
    decreases schema, 1int,
{
    match spec_merge_entries(schema, lkeys, lname, path) {
        Ok((s2, w)) => Ok((s2, w + spec_surplus(lkeys, schema, lname, path))),
        Err(e) => Err(e),
    }
}

pub proof fn lemma_schema_models_push(s: Seq<(Key, LocaleValue)>, p: (Key, LocaleValue))
    ensures
        schema_models(s.push(p)) == schema_models(s).push((p.0@, locale_value_model(p.1))),
{
    broadcast use lemma_schema_models;

    assert(schema_models(s.push(p)) =~= schema_models(s).push((p.0@, locale_value_model(p.1))));
}

proof fn lemma_names_set_pointwise(a: Seq<Key>, b: Seq<Key>)
    requires
        a.len() == b.len(),
        forall|i: int| 0 <= i < a.len() ==> a[i]@ == #[trigger] b[i]@,
    ensures
        names_set(a) =~= names_set(b),
{
    assert forall|n: Seq<char>| names_set(a).contains(n) implies names_set(b).contains(n) by {
        let i = choose|i: int| 0 <= i < a.len() && a[i].name@ == n;
        assert(a[i]@ == b[i]@);
        assert(b[i].name@ == n);
    }
    assert forall|n: Seq<char>| names_set(b).contains(n) implies names_set(a).contains(n) by {
        let i = choose|i: int| 0 <= i < b.len() && b[i].name@ == n;
        assert(a[i]@ == b[i]@);
        assert(a[i].name@ == n);
    }
}

fn copy_sig(s: &InterpolationSig) -> (r: InterpolationSig)
    ensures
        r@ == s@,
        s.wf() ==> r.wf(),
{
    let r = InterpolationSig {
        variables: crate::resolve::clone_keys(&s.variables),
        components: crate::resolve::clone_keys(&s.components),
        counts: crate::resolve::clone_keys(&s.counts),
    };
    proof {
        lemma_names_set_pointwise(r.variables@, s.variables@);
        lemma_names_set_pointwise(r.components@, s.components@);
        lemma_names_set_pointwise(r.counts@, s.counts@);
        assert(r@ =~= s@);
    }
    r
}

/// A structural copy of one merged classification.
#[verifier::loop_isolation(false)]
fn clone_lv(lv: &LocaleValue) -> (r: LocaleValue)
    ensures
        r@ == lv@,
        lv_exec_wf(*lv) ==> lv_exec_wf(r),
    decreases *lv,
{
    match lv {
        LocaleValue::Value(None) => LocaleValue::Value(None),
        LocaleValue::Value(Some(s)) => LocaleValue::Value(Some(copy_sig(s))),
        LocaleValue::Subkeys { keys } => {
            let n = keys.0.len();
            let mut out: Vec<(Key, LocaleValue)> = Vec::new();
            let mut i: usize = 0;
            while i < n
                invariant
                    i <= n,
                    n == keys.0@.len(),
                    out@.len() == i,
                    forall|j: int| 0 <= j < i ==> #[trigger] out@[j].0@ == keys.0@[j].0@
                        && out@[j].1@ == keys.0@[j].1@,
                    forall|j: int|
                        0 <= j < i ==> (lv_exec_wf(keys.0@[j].1) ==> lv_exec_wf(
                            #[trigger] out@[j].1,
                        )),
                decreases n - i,
            {
                proof {
                    assert(decreases_to!(*lv => (*lv)->keys));
                    assert((*lv)->keys == *keys);
                    assert(decreases_to!(*keys => keys.0));
                    assert(decreases_to!(keys.0 => keys.0@));
                    assert(decreases_to!(keys.0@ => keys.0@[i as int]));
                    assert(decreases_to!(keys.0@[i as int] => keys.0@[i as int].1));
                }
                let cv = clone_lv(&keys.0[i].1);
                out.push((keys.0[i].0.clone(), cv));
                i = i + 1;
            }
            proof {
                broadcast use lemma_schema_models;

                assert(schema_models(out@) =~= schema_models(keys.0@));
            }
            LocaleValue::Subkeys { keys: BuildersKeysInner(out) }
        },
    }
}

/// Classifies every key of the default locale's scope, reducing its values:
/// the canonical structure and the initial signatures the other locales fold
/// into.
#[verifier::loop_isolation(false)]
pub fn build_keys(entries: &Vec<(Key, ParsedValue)>, path: &KeyPath) -> (r: Result<
    BuildersKeysInner,
    Error,
>)
    ensures
        match r {
            Ok(b) => spec_build_keys(crate::value::entry_models(entries@), path@) == Ok::<
                _,
                ErrM,
            >(b@) && schema_exec_wf(b.0@),
            Err(e) => spec_build_keys(crate::value::entry_models(entries@), path@) == Err::<
                Seq<(KeyM, LocaleValueM)>,
                _,
            >(e@),
        },
    decreases entries@,
{
    let ghost em = crate::value::entry_models(entries@);
    proof {
        broadcast use crate::value::lemma_entry_models;
        broadcast use lemma_schema_models;

        assert(em.subrange(0, em.len() as int) =~= em);
    }
    let n = entries.len();
    let mut out: Vec<(Key, LocaleValue)> = Vec::new();
    let mut i: usize = 0;
    while i < n
        invariant
            i <= n,
            n == em.len(),
            n == entries@.len(),
            em == crate::value::entry_models(entries@),
            schema_exec_wf(out@),
            match spec_build_keys(em.subrange(i as int, n as int), path@) {
                Ok(rest) => spec_build_keys(em, path@) == Ok::<_, ErrM>(
                    schema_models(out@) + rest,
                ),
                Err(e) => spec_build_keys(em, path@) == Err::<Seq<(KeyM, LocaleValueM)>, _>(e),
            },
        decreases n - i,
    {
        let ghost tail = em.subrange(i as int, n as int);
        proof {
            assert(tail[0] == em[i as int]);
            assert(tail.subrange(1, tail.len() as int) =~= em.subrange(i as int + 1, n as int));
        }
        let k = entries[i].0.clone();
        let mut cpath = path.clone();
        cpath.push_key(k.clone());
        proof {
            assert(cpath@ =~= PathM { namespace: path@.namespace, keys: path@.keys.push(k@) });
        }
        let lv: LocaleValue = match &entries[i].1 {
            ParsedValue::Str(sv) => {
                if sv.as_str().is_empty() {
                    return Err(Error::MissingDefaultValue(cpath));
                }
                LocaleValue::Value(None)
            },
            ParsedValue::Subkeys(es) => {
                proof {
                    assert(decreases_to!(entries@ => entries@[i as int]));
                    assert(decreases_to!(entries@[i as int] => entries@[i as int].1));
                    assert(decreases_to!(entries@[i as int].1 => *es));
                    assert(decreases_to!(*es => es@));
                }
                match build_keys(es, &cpath) {
                    Ok(inner) => LocaleValue::Subkeys { keys: inner },
                    Err(e) => {
                        return Err(e);
                    },
                }
            },
            other => {
                match reduce_value(other, &cpath) {
                    Ok(sig) => {
                        if sig.variables.len() == 0 && sig.components.len() == 0
                            && sig.counts.len() == 0 {
                            proof {
                                assert(sig@.variables =~= Set::<Seq<char>>::empty());
                                assert(sig@.components =~= Set::<Seq<char>>::empty());
                                assert(sig@.counts =~= Set::<Seq<char>>::empty());
                                assert(sig@ =~= sig_empty());
                            }
                            LocaleValue::Value(None)
                        } else {
                            proof {
                                if sig.variables@.len() > 0 {
                                    assert(names_set(sig.variables@).contains(
                                        sig.variables@[0].name@,
                                    ));
                                } else if sig.components@.len() > 0 {
                                    assert(names_set(sig.components@).contains(
                                        sig.components@[0].name@,
                                    ));
                                } else {
                                    assert(names_set(sig.counts@).contains(
                                        sig.counts@[0].name@,
                                    ));
                                }
                            }
                            LocaleValue::Value(Some(sig))
                        }
                    },
                    Err(e) => {
                        return Err(e);
                    },
                }
            },
        };
        let ghost out_old = out@;
        let ghost lvm = lv@;
        let ghost km = k@;
        out.push((k, lv));
        proof {
            lemma_schema_models_push(out_old, out@.last());
            assert(schema_models(out@) =~= schema_models(out_old) + seq![(km, lvm)]);
            let sr = spec_build_keys(em.subrange(i as int + 1, n as int), path@);
            match sr {
                Ok(rest) => {
                    assert(schema_models(out_old) + (seq![(km, lvm)] + rest) =~= schema_models(
                        out@,
                    ) + rest);
                },
                Err(_) => {},
            }
        }
        i = i + 1;
    }
    proof {
        assert(em.subrange(n as int, n as int) =~= Seq::<(KeyM, ValueM)>::empty());
        assert(schema_models(out@) + Seq::<(KeyM, LocaleValueM)>::empty() =~= schema_models(
            out@,
        ));
    }
    Ok(BuildersKeysInner(out))
}

/// Finds the first value of the scope under the given key name.
#[verifier::loop_isolation(false)]
fn lookup_value<'a>(lkeys: &'a Vec<(Key, ParsedValue)>, name: &Key) -> (r: Option<
    &'a ParsedValue,
>)
    ensures
        match r {
            Some(v) => spec_lookup_value(crate::value::entry_models(lkeys@), name.name@) == Some(
                v@,
            ),
            None => spec_lookup_value(crate::value::entry_models(lkeys@), name.name@) is None,
        },
{
    let ghost em = crate::value::entry_models(lkeys@);
    proof {
        broadcast use crate::value::lemma_entry_models;

        assert(em.subrange(0, em.len() as int) =~= em);
    }
    let n = lkeys.len();
    let mut i: usize = 0;
    while i < n
        invariant
            i <= n,
            n == em.len(),
            n == lkeys@.len(),
            em == crate::value::entry_models(lkeys@),
            spec_lookup_value(em, name.name@) == spec_lookup_value(
                em.subrange(i as int, n as int),
                name.name@,
            ),
        decreases n - i,
    {
        proof {
            let tail = em.subrange(i as int, n as int);
            assert(tail[0] == em[i as int]);
            assert(tail.subrange(1, tail.len() as int) =~= em.subrange(i as int + 1, n as int));
        }
        if lkeys[i].0.name.eq(&name.name) {
            return Some(&lkeys[i].1);
        }
        i = i + 1;
    }
    proof {
        assert(em.subrange(n as int, n as int) =~= Seq::<(KeyM, ValueM)>::empty());
    }
    None
}

/// Whether a leaf is the empty literal, the explicit request for the default
/// locale's value.
fn is_default_marker(v: &ParsedValue) -> (r: bool)
    ensures
        r == (v@ == ValueM::Str(Seq::<char>::empty())),
{
    match v {
        ParsedValue::Str(sv) => {
            let r = sv.as_str().is_empty();
            proof {
                if sv@.len() == 0 {
                    assert(sv@ =~= Seq::<char>::empty());
                }
            }
            r
        },
        _ => false,
    }
}

/// Whether the schema's scope holds the name.
#[verifier::loop_isolation(false)]
fn schema_has_name(schema: &Vec<(Key, LocaleValue)>, name: &Key) -> (r: bool)
    ensures
        r == spec_schema_has_name(schema_models(schema@), name.name@),
{
    let ghost sm = schema_models(schema@);
    proof {
        broadcast use lemma_schema_models;

    }
    let n = schema.len();
    let mut i: usize = 0;
    while i < n
        invariant
            i <= n,
            n == sm.len(),
            n == schema@.len(),
            sm == schema_models(schema@),
            forall|j: int| 0 <= j < i ==> sm[j].0.name != name.name@,
        decreases n - i,
    {
        if schema[i].0.name.eq(&name.name) {
            proof {
                assert(sm[i as int].0.name == name.name@);
            }
            return true;
        }
        i = i + 1;
    }
    proof {
        assert(!spec_schema_has_name(sm, name.name@));
    }
    false
}

/// The models of recorded warnings, in order.
pub open spec fn warn_models(s: Seq<crate::error::Warning>) -> Seq<crate::error::WarnM> {
    Seq::new(s.len(), |i: int| s[i]@)
}

/// Merges one locale's scope against the canonical schema: missing or
/// explicitly defaulted keys warn and fall back to the default locale's
/// value, nested scopes merge recursively, leaves reduce and fold their
/// signatures into the union, shape disagreements are hard errors, and keys
/// the schema does not know are discarded with a surplus warning.
#[verifier::loop_isolation(false)]
pub fn merge_locale(
    schema: &Vec<(Key, LocaleValue)>,
    lkeys: &Vec<(Key, ParsedValue)>,
    lname: &Key,
    path: &KeyPath,
) -> (r: Result<(Vec<(Key, LocaleValue)>, Vec<crate::error::Warning>), Error>)
    requires
        schema_exec_wf(schema@),
    ensures
        match r {
            Ok(p2) => spec_merge_locale(
                schema_models(schema@),
                crate::value::entry_models(lkeys@),
                lname.name@,
                path@,
            ) == Ok::<_, ErrM>((schema_models(p2.0@), warn_models(p2.1@))) && schema_exec_wf(
                p2.0@,
            ),
            Err(e) => spec_merge_locale(
                schema_models(schema@),
                crate::value::entry_models(lkeys@),
                lname.name@,
                path@,
            ) == Err::<(Seq<(KeyM, LocaleValueM)>, Seq<crate::error::WarnM>), _>(e@),
        },
    decreases schema@,
{
    let ghost sm = schema_models(schema@);
    let ghost lm = crate::value::entry_models(lkeys@);
    let ghost ln = lname.name@;
    proof {
        broadcast use lemma_schema_models;
        broadcast use crate::value::lemma_entry_models;

        assert(sm.subrange(0, sm.len() as int) =~= sm);
    }
    let n = schema.len();
    let mut out_s: Vec<(Key, LocaleValue)> = Vec::new();
    let mut out_w: Vec<crate::error::Warning> = Vec::new();
    let mut i: usize = 0;
    while i < n
        invariant
            i <= n,
            n == sm.len(),
            n == schema@.len(),
            sm == schema_models(schema@),
            lm == crate::value::entry_models(lkeys@),
            schema_exec_wf(schema@),
            schema_exec_wf(out_s@),
            match spec_merge_entries(sm.subrange(i as int, n as int), lm, ln, path@) {
                Ok(p) => spec_merge_entries(sm, lm, ln, path@) == Ok::<_, ErrM>(
                    (schema_models(out_s@) + p.0, warn_models(out_w@) + p.1),
                ),
                Err(e) => spec_merge_entries(sm, lm, ln, path@) == Err::<
                    (Seq<(KeyM, LocaleValueM)>, Seq<crate::error::WarnM>),
                    _,
                >(e),
            },
        decreases n - i,
    {
        let ghost tail = sm.subrange(i as int, n as int);
        proof {
            assert(tail[0] == sm[i as int]);
            assert(tail.subrange(1, tail.len() as int) =~= sm.subrange(i as int + 1, n as int));
        }
        let ghost out_s_old = out_s@;
        let ghost out_w_old = out_w@;
        let k = &schema[i].0;
        let lv = &schema[i].1;
        let mut cpath = path.clone();
        cpath.push_key(k.clone());
        proof {
            assert(cpath@ =~= PathM { namespace: path@.namespace, keys: path@.keys.push(k@) });
            assert(lv_exec_wf(schema@[i as int].1));
        }
        let ghost head_w: Seq<crate::error::WarnM>;
        let looked = lookup_value(lkeys, k);
        let missing = match looked {
            None => true,
            Some(v) => is_default_marker(v),
        };
        if missing {
            let hlv = clone_lv(lv);
            out_s.push((k.clone(), hlv));
            out_w.push(
                crate::error::Warning::MissingKey { locale: lname.clone(), path: cpath },
            );
            proof {
                head_w = seq![crate::error::WarnM::MissingKey { locale: ln, path: cpath@ }];
                assert(warn_models(out_w@) =~= warn_models(out_w_old) + head_w);
            }
        } else {
            match looked {
                Some(v) => {
                    match lv {
                        LocaleValue::Subkeys { keys } => {
                            match v {
                                ParsedValue::Subkeys(les) => {
                                    proof {
                                        assert(decreases_to!(schema@ => schema@[i as int]));
                                        assert(decreases_to!(schema@[i as int] => schema@[i as int].1));
                                        assert(decreases_to!(schema@[i as int].1 => (schema@[i as int].1)->keys));
                                        assert((schema@[i as int].1)->keys == *keys);
                                        assert(decreases_to!(*keys => keys.0));
                                        assert(decreases_to!(keys.0 => keys.0@));
                                    }
                                    match merge_locale(&keys.0, les, lname, &cpath) {
                                        Ok(pr) => {
                                            let (inner2, mut w) = pr;
                                            proof {
                                                head_w = warn_models(w@);
                                            }
                                            out_s.push(
                                                (
                                                    k.clone(),
                                                    LocaleValue::Subkeys {
                                                        keys: BuildersKeysInner(inner2),
                                                    },
                                                ),
                                            );
                                            out_w.append(&mut w);
                                            proof {
                                                assert(warn_models(out_w@) =~= warn_models(
                                                    out_w_old,
                                                ) + head_w);
                                            }
                                        },
                                        Err(e) => {
                                            return Err(e);
                                        },
                                    }
                                },
                                _ => {
                                    return Err(Error::LocaleKeyTypeMismatch(cpath));
                                },
                            }
                        },
                        LocaleValue::Value(optsig) => {
                            match v {
                                ParsedValue::Subkeys(_) => {
                                    return Err(Error::LocaleKeyTypeMismatch(cpath));
                                },
                                _ => {
                                    match reduce_value(v, &cpath) {
                                        Ok(s2) => {
                                            let base: InterpolationSig = match optsig {
                                                Some(sg) => copy_sig(sg),
                                                None => {
                                                    let b = InterpolationSig {
                                                        variables: Vec::new(),
                                                        components: Vec::new(),
                                                        counts: Vec::new(),
                                                    };
                                                    proof {
                                                        assert(b@.variables =~= Set::<
                                                            Seq<char>,
                                                        >::empty());
                                                        assert(b@.components =~= Set::<
                                                            Seq<char>,
                                                        >::empty());
                                                        assert(b@.counts =~= Set::<
                                                            Seq<char>,
                                                        >::empty());
                                                        assert(b@ =~= sig_empty());
                                                    }
                                                    b
                                                },
                                            };
                                            if !sigs_compatible_exec(&base, &s2) {
                                                return Err(Error::LocaleKeyTypeMismatch(cpath));
                                            }
                                            let u = sig_union_exec(base, &s2);
                                            let hlv: LocaleValue = if u.variables.len() == 0
                                                && u.components.len() == 0 && u.counts.len()
                                                == 0 {
                                                proof {
                                                    assert(u@.variables =~= Set::<
                                                        Seq<char>,
                                                    >::empty());
                                                    assert(u@.components =~= Set::<
                                                        Seq<char>,
                                                    >::empty());
                                                    assert(u@.counts =~= Set::<
                                                        Seq<char>,
                                                    >::empty());
                                                    assert(u@ =~= sig_empty());
                                                }
                                                LocaleValue::Value(None)
                                            } else {
                                                proof {
                                                    if u.variables@.len() > 0 {
                                                        assert(names_set(u.variables@).contains(
                                                            u.variables@[0].name@,
                                                        ));
                                                    } else if u.components@.len() > 0 {
                                                        assert(names_set(u.components@).contains(
                                                            u.components@[0].name@,
                                                        ));
                                                    } else {
                                                        assert(names_set(u.counts@).contains(
                                                            u.counts@[0].name@,
                                                        ));
                                                    }
                                                }
                                                LocaleValue::Value(Some(u))
                                            };
                                            out_s.push((k.clone(), hlv));
                                            proof {
                                                head_w = Seq::empty();
                                                assert(warn_models(out_w@) =~= warn_models(
                                                    out_w_old,
                                                ) + head_w);
                                            }
                                        },
                                        Err(e) => {
                                            return Err(e);
                                        },
                                    }
                                },
                            }
                        },
                    }
                },
                None => {
                    proof {
                        assert(false);
                    }
                    return Err(Error::LocaleKeyTypeMismatch(cpath));
                },
            }
        }
        proof {
            lemma_schema_models_push(out_s_old, out_s@.last());
            assert(schema_models(out_s@) =~= schema_models(out_s_old) + seq![
                (out_s@.last().0@, locale_value_model(out_s@.last().1)),
            ]);
            let sr = spec_merge_entries(sm.subrange(i as int + 1, n as int), lm, ln, path@);
            match sr {
                Ok(p) => {
                    assert(schema_models(out_s_old) + (seq![
                        (out_s@.last().0@, locale_value_model(out_s@.last().1)),
                    ] + p.0) =~= schema_models(out_s@) + p.0);
                    assert(warn_models(out_w_old) + (head_w + p.1) =~= warn_models(out_w@)
                        + p.1);
                },
                Err(_) => {},
            }
        }
        i = i + 1;
    }
    proof {
        assert(sm.subrange(n as int, n as int) =~= Seq::<(KeyM, LocaleValueM)>::empty());
        assert(schema_models(out_s@) + Seq::<(KeyM, LocaleValueM)>::empty() =~= schema_models(
            out_s@,
        ));
        assert(warn_models(out_w@) + Seq::<crate::error::WarnM>::empty() =~= warn_models(out_w@));
    }
    let nl = lkeys.len();
    let ghost w_before = out_w@;
    proof {
        assert(lm.subrange(0, nl as int) =~= lm);
    }
    let mut j: usize = 0;
    while j < nl
        invariant
            j <= nl,
            nl == lm.len(),
            nl == lkeys@.len(),
            lm == crate::value::entry_models(lkeys@),
            sm == schema_models(schema@),
            warn_models(out_w@) + spec_surplus(lm.subrange(j as int, nl as int), sm, ln, path@)
                == warn_models(w_before) + spec_surplus(lm, sm, ln, path@),
        decreases nl - j,
    {
        let ghost stail = lm.subrange(j as int, nl as int);
        proof {
            assert(stail[0] == lm[j as int]);
            assert(stail.subrange(1, stail.len() as int) =~= lm.subrange(
                j as int + 1,
                nl as int,
            ));
        }
        if !schema_has_name(schema, &lkeys[j].0) {
            let mut cpath = path.clone();
            cpath.push_key(lkeys[j].0.clone());
            proof {
                assert(cpath@ =~= PathM {
                    namespace: path@.namespace,
                    keys: path@.keys.push(lm[j as int].0),
                });
            }
            let ghost out_w_old2 = out_w@;
            out_w.push(
                crate::error::Warning::SurplusKey { locale: lname.clone(), path: cpath },
            );
            proof {
                assert(warn_models(out_w@) =~= warn_models(out_w_old2) + seq![
                    crate::error::WarnM::SurplusKey {
                        locale: ln,
                        path: PathM {
                            namespace: path@.namespace,
                            keys: path@.keys.push(lm[j as int].0),
                        },
                    },
                ]);
                assert(warn_models(out_w_old2) + (seq![
                    crate::error::WarnM::SurplusKey {
                        locale: ln,
                        path: PathM {
                            namespace: path@.namespace,
                            keys: path@.keys.push(lm[j as int].0),
                        },
                    },
                ] + spec_surplus(lm.subrange(j as int + 1, nl as int), sm, ln, path@))
                    =~= warn_models(out_w@) + spec_surplus(
                    lm.subrange(j as int + 1, nl as int),
                    sm,
                    ln,
                    path@,
                ));
            }
        }
        j = j + 1;
    }
    proof {
        assert(lm.subrange(nl as int, nl as int) =~= Seq::<(KeyM, ValueM)>::empty());
        assert(warn_models(out_w@) + Seq::<crate::error::WarnM>::empty() =~= warn_models(out_w@));
    }
    Ok((out_s, out_w))
}

/// Ghost model of the unified output handed to the code generator.
#[verifier::ext_equal]
pub enum BuildersKeysM {
    Locales { locales: Seq<Seq<char>>, keys: Seq<(KeyM, LocaleValueM)> },
    NameSpaces { namespaces: Seq<Seq<char>>, keys: Seq<(KeyM, Seq<(KeyM, LocaleValueM)>)> },
}

/// The unified schema: the configured locales with one merged scope in flat
/// mode, or one merged scope per namespace.
#[derive(PartialEq, Eq)]
pub enum BuildersKeys {
    Locales { locales: Vec<Key>, keys: BuildersKeysInner },
    NameSpaces { namespaces: Vec<Key>, keys: Vec<(Key, BuildersKeysInner)> },
}

/// The names of a run of keys, in order.
pub open spec fn key_name_seq(ks: Seq<Key>) -> Seq<Seq<char>> {
    Seq::new(ks.len(), |i: int| ks[i].name@)
}

/// The models of the per-namespace scopes, in order.
pub open spec fn ns_schema_models(s: Seq<(Key, BuildersKeysInner)>) -> Seq<
    (KeyM, Seq<(KeyM, LocaleValueM)>),
> {
    Seq::new(s.len(), |i: int| (s[i].0@, schema_models(s[i].1.0@)))
}

impl View for BuildersKeys {
    type V = BuildersKeysM;

    open spec fn view(&self) -> BuildersKeysM {
        match self {
            BuildersKeys::Locales { locales, keys } => BuildersKeysM::Locales {
                locales: key_name_seq(locales@),
                keys: schema_models(keys.0@),
            },
            BuildersKeys::NameSpaces { namespaces, keys } => BuildersKeysM::NameSpaces {
                namespaces: key_name_seq(namespaces@),
                keys: ns_schema_models(keys@),
            },
        }
    }
}

/// The names of the configured locales, in order.
pub open spec fn locale_names(ls: Seq<crate::locale::LocaleM>) -> Seq<Seq<char>> {
    Seq::new(ls.len(), |i: int| ls[i].name)
}

/// What folding every other locale into the schema yields: the default
/// locale's own tree is skipped; each other locale merges in configured
/// order, its warnings appended.
pub open spec fn spec_merge_others(
    ls: Seq<crate::locale::LocaleM>,
    schema: Seq<(KeyM, LocaleValueM)>,
    default: Seq<char>,
    path: PathM,
) -> Result<(Seq<(KeyM, LocaleValueM)>, Seq<crate::error::WarnM>), ErrM>
    decreases ls,
{
    if ls.len() == 0 {
        Ok((schema, Seq::empty()))
    } else if ls[0].name == default {
        spec_merge_others(ls.subrange(1, ls.len() as int), schema, default, path)
    } else {
        match spec_merge_locale(schema, ls[0].keys, ls[0].name, path) {
            Ok((s2, w)) => match spec_merge_others(
                ls.subrange(1, ls.len() as int),
                s2,
                default,
                path,
            ) {
                Ok((s3, w2)) => Ok((s3, w + w2)),
                Err(e) => Err(e),
            },
            Err(e) => Err(e),
        }
    }
}

/// What checking one set of locales yields: the default locale's tree gives
/// the canonical structure, then every other locale merges against it. A
/// missing default locale tree is itself a missing default value.
pub open spec fn spec_check_set(
    ls: Seq<crate::locale::LocaleM>,
    default: Seq<char>,
    path: PathM,
) -> Result<(Seq<(KeyM, LocaleValueM)>, Seq<crate::error::WarnM>), ErrM> {
    match crate::resolve::spec_find_locale(ls, default) {
        None => Err(ErrM::MissingDefaultValue(path)),
        Some(dkeys) => match spec_build_keys(dkeys, path) {
            Ok(s0) => spec_merge_others(ls, s0, default, path),
            Err(e) => Err(e),
        },
    }
}

pub open spec fn spec_check_namespaces(
    nss: Seq<crate::locale::NamespaceM>,
    default: Seq<char>,
) -> Result<(Seq<(KeyM, Seq<(KeyM, LocaleValueM)>)>, Seq<crate::error::WarnM>), ErrM>
    decreases nss,
{
    if nss.len() == 0 {
        Ok((Seq::empty(), Seq::empty()))
    } else {
        let path = PathM { namespace: Some(nss[0].key), keys: Seq::empty() };
        match spec_check_set(nss[0].locales, default, path) {
            Ok((s, w)) => match spec_check_namespaces(nss.subrange(1, nss.len() as int), default) {
                Ok((rest, w2)) => Ok((seq![(nss[0].key, s)] + rest, w + w2)),
                Err(e) => Err(e),
            },
            Err(e) => Err(e),
        }
    }
}

/// What the whole merge pass yields for the configured input.
pub open spec fn spec_check_locales(trees: crate::locale::TreesM, default: Seq<char>) -> Result<
    (BuildersKeysM, Seq<crate::error::WarnM>),
    ErrM,
> {
    match trees {
        crate::locale::TreesM::Locales(ls) => match spec_check_set(
            ls,
            default,
            PathM { namespace: None, keys: Seq::empty() },
        ) {
            Ok((s, w)) => Ok((BuildersKeysM::Locales { locales: locale_names(ls), keys: s }, w)),
            Err(e) => Err(e),
        },
        crate::locale::TreesM::Namespaces(nss) => match spec_check_namespaces(nss, default) {
            Ok((ks, w)) => Ok(
                (
                    BuildersKeysM::NameSpaces {
                        namespaces: Seq::new(nss.len(), |i: int| nss[i].key.name),
                        keys: ks,
                    },
                    w,
                ),
            ),
            Err(e) => Err(e),
        },
    }
}

/// Checks one set of locales: canonical structure from the default, then the
/// fold of every other locale.
#[verifier::loop_isolation(false)]
fn check_set(ls: &Vec<crate::locale::Locale>, default: &Key, path: &KeyPath) -> (r: Result<
    (BuildersKeysInner, Vec<crate::error::Warning>),
    Error,
>)
    ensures
        match r {
            Ok(p2) => spec_check_set(crate::locale::locale_models(ls@), default.name@, path@)
                == Ok::<_, ErrM>((schema_models(p2.0.0@), warn_models(p2.1@))) && schema_exec_wf(
                p2.0.0@,
            ),
            Err(e) => spec_check_set(crate::locale::locale_models(ls@), default.name@, path@)
                == Err::<(Seq<(KeyM, LocaleValueM)>, Seq<crate::error::WarnM>), _>(e@),
        },
{
    let ghost lsm = crate::locale::locale_models(ls@);
    let dloc = match crate::resolve::find_locale(ls, default) {
        Some(l) => l,
        None => {
            return Err(Error::MissingDefaultValue(path.clone()));
        },
    };
    let mut cur = match build_keys(&dloc.keys, path) {
        Ok(b) => b,
        Err(e) => {
            return Err(e);
        },
    };
    let ghost s0m = schema_models(cur.0@);
    let mut accw: Vec<crate::error::Warning> = Vec::new();
    let n = ls.len();
    proof {
        assert(lsm.subrange(0, n as int) =~= lsm);
    }
    let mut i: usize = 0;
    while i < n
        invariant
            i <= n,
            n == lsm.len(),
            n == ls@.len(),
            lsm == crate::locale::locale_models(ls@),
            schema_exec_wf(cur.0@),
            match spec_merge_others(
                lsm.subrange(i as int, n as int),
                schema_models(cur.0@),
                default.name@,
                path@,
            ) {
                Ok(p) => spec_merge_others(lsm, s0m, default.name@, path@) == Ok::<_, ErrM>(
                    (p.0, warn_models(accw@) + p.1),
                ),
                Err(e) => spec_merge_others(lsm, s0m, default.name@, path@) == Err::<
                    (Seq<(KeyM, LocaleValueM)>, Seq<crate::error::WarnM>),
                    _,
                >(e),
            },
        decreases n - i,
    {
        let ghost tail = lsm.subrange(i as int, n as int);
        proof {
            assert(tail[0] == lsm[i as int]);
            assert(tail.subrange(1, tail.len() as int) =~= lsm.subrange(i as int + 1, n as int));
        }
        if !ls[i].top_locale_name.name.eq(&default.name) {
            match merge_locale(&cur.0, &ls[i].keys, &ls[i].top_locale_name, path) {
                Ok(pr) => {
                    let (s2, mut w) = pr;
                    let ghost accw_old = accw@;
                    let ghost wm = warn_models(w@);
                    cur = BuildersKeysInner(s2);
                    accw.append(&mut w);
                    proof {
                        assert(warn_models(accw@) =~= warn_models(accw_old) + wm);
                        let sr = spec_merge_others(
                            lsm.subrange(i as int + 1, n as int),
                            schema_models(cur.0@),
                            default.name@,
                            path@,
                        );
                        match sr {
                            Ok(p) => {
                                assert(warn_models(accw_old) + (wm + p.1) =~= warn_models(accw@)
                                    + p.1);
                            },
                            Err(_) => {},
                        }
                    }
                },
                Err(e) => {
                    return Err(e);
                },
            }
        }
        i = i + 1;
    }
    proof {
        assert(lsm.subrange(n as int, n as int) =~= Seq::<crate::locale::LocaleM>::empty());
        assert(warn_models(accw@) + Seq::<crate::error::WarnM>::empty() =~= warn_models(accw@));
    }
    Ok((cur, accw))
}

/// The merge pass, steps three and four of the build: every key of the
/// default locale classified and reduced, every other locale merged against
/// that canonical structure, discrepancies recorded in the warning sink. The
/// first error aborts; warnings are appended to the sink only on success.
#[verifier::loop_isolation(false)]
pub fn check_locales(
    trees: &crate::locale::LocalesOrNamespaces,
    default: &Key,
    warnings: &mut Vec<crate::error::Warning>,
) -> (r: Result<BuildersKeys, Error>)
    ensures
        match r {
            Ok(bk) => spec_check_locales(trees@, default.name@) == Ok::<_, ErrM>(
                (
                    bk@,
                    warn_models(
                        final(warnings)@.subrange(
                            old(warnings)@.len() as int,
                            final(warnings)@.len() as int,
                        ),
                    ),
                ),
            ) && final(warnings)@.len() >= old(warnings)@.len() && final(warnings)@.subrange(
                0,
                old(warnings)@.len() as int,
            ) == old(warnings)@,
            Err(e) => spec_check_locales(trees@, default.name@) == Err::<
                (BuildersKeysM, Seq<crate::error::WarnM>),
                _,
            >(e@) && final(warnings)@ == old(warnings)@,
        },
{
    match trees {
        crate::locale::LocalesOrNamespaces::Locales(ls) => {
            match check_set(ls, default, &KeyPath::new(None)) {
                Ok(pr) => {
                    let (keys, mut w) = pr;
                    let mut names: Vec<Key> = Vec::new();
                    let n = ls.len();
                    let mut i: usize = 0;
                    while i < n
                        invariant
                            i <= n,
                            n == ls@.len(),
                            names@.len() == i,
                            forall|j: int| 0 <= j < i ==> #[trigger] names@[j]@
                                == ls@[j].top_locale_name@,
                        decreases n - i,
                    {
                        names.push(ls[i].top_locale_name.clone());
                        i = i + 1;
                    }
                    let ghost wlen0 = warnings@.len();
                    let ghost wm = warn_models(w@);
                    warnings.append(&mut w);
                    let bk = BuildersKeys::Locales { locales: names, keys };
                    proof {
                        assert(warnings@.subrange(0, wlen0 as int) =~= old(warnings)@);
                        assert(warn_models(
                            warnings@.subrange(wlen0 as int, warnings@.len() as int),
                        ) =~= wm);
                        assert forall|j: int| 0 <= j < n implies names@[j].name@
                            == ls@[j].top_locale_name.name@ by {
                            assert(names@[j]@ == ls@[j].top_locale_name@);
                        }
                        assert(key_name_seq(bk->Locales_locales@) =~= locale_names(
                            crate::locale::locale_models(ls@),
                        ));
                        assert(bk@ =~= BuildersKeysM::Locales {
                            locales: locale_names(crate::locale::locale_models(ls@)),
                            keys: schema_models(bk->Locales_keys.0@),
                        });
                    }
                    Ok(bk)
                },
                Err(e) => Err(e),
            }
        },
        crate::locale::LocalesOrNamespaces::Namespaces(nss) => {
            let ghost nm = crate::locale::namespace_models(nss@);
            let n = nss.len();
            proof {
                assert(nm.subrange(0, n as int) =~= nm);
            }
            let mut out_k: Vec<(Key, BuildersKeysInner)> = Vec::new();
            let mut accw: Vec<crate::error::Warning> = Vec::new();
            let mut i: usize = 0;
            while i < n
                invariant
                    i <= n,
                    n == nm.len(),
                    n == nss@.len(),
                    nm == crate::locale::namespace_models(nss@),
                    out_k@.len() == i,
                    match spec_check_namespaces(nm.subrange(i as int, n as int), default.name@) {
                        Ok(p) => spec_check_namespaces(nm, default.name@) == Ok::<_, ErrM>(
                            (ns_schema_models(out_k@) + p.0, warn_models(accw@) + p.1),
                        ),
                        Err(e) => spec_check_namespaces(nm, default.name@) == Err::<
                            (Seq<(KeyM, Seq<(KeyM, LocaleValueM)>)>, Seq<crate::error::WarnM>),
                            _,
                        >(e),
                    },
                decreases n - i,
            {
                let ghost tail = nm.subrange(i as int, n as int);
                proof {
                    assert(tail[0] == nm[i as int]);
                    assert(tail.subrange(1, tail.len() as int) =~= nm.subrange(
                        i as int + 1,
                        n as int,
                    ));
                }
                let nkey = nss[i].key.clone();
                let npath = KeyPath::new(Some(nkey.clone()));
                proof {
                    assert(npath@ =~= PathM { namespace: Some(nm[i as int].key), keys: Seq::empty() });
                }
                match check_set(&nss[i].locales, default, &npath) {
                    Ok(pr) => {
                        let (keys, mut w) = pr;
                        let ghost out_k_old = out_k@;
                        let ghost accw_old = accw@;
                        let ghost wm = warn_models(w@);
                        out_k.push((nkey, keys));
                        accw.append(&mut w);
                        proof {
                            assert(ns_schema_models(out_k@) =~= ns_schema_models(out_k_old)
                                + seq![
                                (out_k@.last().0@, schema_models(out_k@.last().1.0@)),
                            ]);
                            assert(warn_models(accw@) =~= warn_models(accw_old) + wm);
                            let sr = spec_check_namespaces(
                                nm.subrange(i as int + 1, n as int),
                                default.name@,
                            );
                            match sr {
                                Ok(p) => {
                                    assert(ns_schema_models(out_k_old) + (seq![
                                        (out_k@.last().0@, schema_models(out_k@.last().1.0@)),
                                    ] + p.0) =~= ns_schema_models(out_k@) + p.0);
                                    assert(warn_models(accw_old) + (wm + p.1) =~= warn_models(
                                        accw@,
                                    ) + p.1);
                                },
                                Err(_) => {},
                            }
                        }
                    },
                    Err(e) => {
                        return Err(e);
                    },
                }
                i = i + 1;
            }
            proof {
                assert(nm.subrange(n as int, n as int) =~= Seq::<
                    crate::locale::NamespaceM,
                >::empty());
                assert(ns_schema_models(out_k@) + Seq::<
                    (KeyM, Seq<(KeyM, LocaleValueM)>),
                >::empty() =~= ns_schema_models(out_k@));
                assert(warn_models(accw@) + Seq::<crate::error::WarnM>::empty() =~= warn_models(
                    accw@,
                ));
            }
            let mut names: Vec<Key> = Vec::new();
            let mut i2: usize = 0;
            while i2 < n
                invariant
                    i2 <= n,
                    n == nss@.len(),
                    names@.len() == i2,
                    forall|j: int| 0 <= j < i2 ==> #[trigger] names@[j]@ == nss@[j].key@,
                decreases n - i2,
            {
                names.push(nss[i2].key.clone());
                i2 = i2 + 1;
            }
            let ghost wlen0 = warnings@.len();
            let ghost wm2 = warn_models(accw@);
            warnings.append(&mut accw);
            let bk = BuildersKeys::NameSpaces { namespaces: names, keys: out_k };
            proof {
                assert(warnings@.subrange(0, wlen0 as int) =~= old(warnings)@);
                assert(warn_models(warnings@.subrange(wlen0 as int, warnings@.len() as int))
                    =~= wm2);
                assert forall|j: int| 0 <= j < n implies names@[j].name@ == nss@[j].key.name@ by {
                    assert(names@[j]@ == nss@[j].key@);
                }
                assert(key_name_seq(bk->NameSpaces_namespaces@) =~= Seq::new(
                    nm.len(),
                    |i: int| nm[i].key.name,
                ));
                assert(bk@ =~= BuildersKeysM::NameSpaces {
                    namespaces: Seq::new(nm.len(), |i: int| nm[i].key.name),
                    keys: ns_schema_models(bk->NameSpaces_keys@),
                });
            }
            Ok(bk)
        },
    }
}

/// The whole engine on parsed input, strictly ordered: the global
/// foreign-key resolution pass first, then the locale check and merge, with
/// discrepancies appended to the warning sink on success.
pub fn build_schema(
    trees: &crate::locale::LocalesOrNamespaces,
    default: &Key,
    warnings: &mut Vec<crate::error::Warning>,
) -> (r: Result<BuildersKeys, Error>)
    ensures
        match crate::resolve::spec_resolve_all(trees@, default.name@) {
            Ok(t2) => match r {
                Ok(bk) => spec_check_locales(t2, default.name@) == Ok::<_, ErrM>(
                    (
                        bk@,
                        warn_models(
                            final(warnings)@.subrange(
                                old(warnings)@.len() as int,
                                final(warnings)@.len() as int,
                            ),
                        ),
                    ),
                ) && final(warnings)@.len() >= old(warnings)@.len()
                    && final(warnings)@.subrange(0, old(warnings)@.len() as int) == old(
                    warnings,
                )@,
                Err(e) => spec_check_locales(t2, default.name@) == Err::<
                    (BuildersKeysM, Seq<crate::error::WarnM>),
                    _,
                >(e@) && final(warnings)@ == old(warnings)@,
            },
            Err(e0) => r matches Err(e) && e@ == e0 && final(warnings)@ == old(warnings)@,
        },
{
    match crate::resolve::resolve_foreign_keys(trees, default) {
        Ok(resolved) => check_locales(&resolved, default, warnings),
        Err(e) => Err(e),
    }
}

/// Folding locales' contributions into one key's signature is
/// order-independent: two contributions can be folded in either order with
/// the same success condition and the same resulting union.
pub proof fn lemma_sig_fold_order(s: SigM, a: SigM, b: SigM)
    ensures
        (sigs_compatible(s, a) && sigs_compatible(sig_union(s, a), b)) <==> (sigs_compatible(
            s,
            b,
        ) && sigs_compatible(sig_union(s, b), a)),
        sig_union(sig_union(s, a), b) == sig_union(sig_union(s, b), a),
{
    lemma_compat_union_left(s, a, b);
    lemma_compat_union_left(s, b, a);
    assert(sigs_compatible(a, b) <==> sigs_compatible(b, a));
    assert(sig_union(sig_union(s, a), b) =~= sig_union(sig_union(s, b), a));
}

/// The path a warning reports.
pub open spec fn warn_path(w: crate::error::WarnM) -> PathM {
    match w {
        crate::error::WarnM::MissingKey { locale: _, path } => path,
        crate::error::WarnM::SurplusKey { locale: _, path } => path,
    }
}

/// How often a warning occurs in a run of warnings.
pub open spec fn count_warn(ws: Seq<crate::error::WarnM>, w: crate::error::WarnM) -> int
    decreases ws.len(),
{
    if ws.len() == 0 {
        0
    } else {
        (if ws[0] == w {
            1int
        } else {
            0int
        }) + count_warn(ws.subrange(1, ws.len() as int), w)
    }
}

proof fn lemma_count_concat(a: Seq<crate::error::WarnM>, b: Seq<crate::error::WarnM>, w: crate::error::WarnM)
    ensures
        count_warn(a + b, w) == count_warn(a, w) + count_warn(b, w),
    decreases a.len(),
{
    if a.len() == 0 {
        assert(a + b =~= b);
    } else {
        assert((a + b)[0] == a[0]);
        assert((a + b).subrange(1, (a + b).len() as int) =~= a.subrange(1, a.len() as int) + b);
        lemma_count_concat(a.subrange(1, a.len() as int), b, w);
    }
}

/// Merging a locale never changes which keys the schema holds, nor their
/// order: the default locale's key set stays authoritative.
pub proof fn lemma_merge_keys_preserved(
    schema: Seq<(KeyM, LocaleValueM)>,
    lk: Seq<(KeyM, ValueM)>,
    ln: Seq<char>,
    path: PathM,
)
    ensures
        spec_merge_locale(schema, lk, ln, path) matches Ok(p2) ==> p2.0.len() == schema.len()
            && (forall|i: int| 0 <= i < schema.len() ==> p2.0[i].0 == #[trigger] schema[i].0),
    decreases schema, 2int,
{
    lemma_merge_entries_keys_preserved(schema, lk, ln, path);
}

proof fn lemma_merge_entries_keys_preserved(
    schema: Seq<(KeyM, LocaleValueM)>,
    lk: Seq<(KeyM, ValueM)>,
    ln: Seq<char>,
    path: PathM,
)
    ensures
        spec_merge_entries(schema, lk, ln, path) matches Ok(p2) ==> p2.0.len() == schema.len()
            && (forall|i: int| 0 <= i < schema.len() ==> p2.0[i].0 == #[trigger] schema[i].0),
    decreases schema, 1int,
{
    if schema.len() > 0 {
        lemma_merge_entries_keys_preserved(
            schema.subrange(1, schema.len() as int),
            lk,
            ln,
            path,
        );
        match spec_merge_entries(schema, lk, ln, path) {
            Ok(p2) => {
                let rest = spec_merge_entries(schema.subrange(1, schema.len() as int), lk, ln, path);
                match rest {
                    Ok(rp) => {
                        assert forall|i: int|
                            0 <= i < schema.len() implies p2.0[i].0 == #[trigger] schema[i].0 by {
                            if i > 0 {
                                assert(p2.0[i] == rp.0[i - 1]);
                                assert(rp.0[i - 1].0 == schema.subrange(
                                    1,
                                    schema.len() as int,
                                )[i - 1].0);
                            }
                        }
                    },
                    Err(_) => {},
                }
            },
            Err(_) => {},
        }
    }
}

/// A warning the merge of one scope emits either sits at one of that scope's
/// own keys or deeper; one that sits elsewhere, no deeper than one level, is
/// never emitted.
proof fn lemma_no_target_warn(
    schema: Seq<(KeyM, LocaleValueM)>,
    lk: Seq<(KeyM, ValueM)>,
    ln: Seq<char>,
    path: PathM,
    t: crate::error::WarnM,
)
    requires
        warn_path(t).keys.len() <= path.keys.len() + 1,
        forall|j: int|
            0 <= j < schema.len() ==> warn_path(t) != (PathM {
                namespace: path.namespace,
                keys: path.keys.push(#[trigger] schema[j].0),
            }),
        forall|j: int|
            0 <= j < lk.len() ==> warn_path(t) != (PathM {
                namespace: path.namespace,
                keys: path.keys.push(#[trigger] lk[j].0),
            }),
    ensures
        spec_merge_locale(schema, lk, ln, path) matches Ok(p2) ==> count_warn(p2.1, t) == 0,
    decreases schema, 2int,
{
    lemma_no_target_warn_entries(schema, lk, ln, path, t);
    lemma_no_target_warn_surplus(lk, schema, ln, path, t);
    match spec_merge_entries(schema, lk, ln, path) {
        Ok((s2, w)) => {
            lemma_count_concat(w, spec_surplus(lk, schema, ln, path), t);
        },
        Err(_) => {},
    }
}

proof fn lemma_no_target_warn_surplus(
    lk: Seq<(KeyM, ValueM)>,
    schema: Seq<(KeyM, LocaleValueM)>,
    ln: Seq<char>,
    path: PathM,
    t: crate::error::WarnM,
)
    requires
        forall|j: int|
            0 <= j < lk.len() ==> warn_path(t) != (PathM {
                namespace: path.namespace,
                keys: path.keys.push(#[trigger] lk[j].0),
            }),
    ensures
        count_warn(spec_surplus(lk, schema, ln, path), t) == 0,
    decreases lk.len(),
{
    if lk.len() > 0 {
        lemma_no_target_warn_surplus(lk.subrange(1, lk.len() as int), schema, ln, path, t);
        let rest = spec_surplus(lk.subrange(1, lk.len() as int), schema, ln, path);
        if !spec_schema_has_name(schema, lk[0].0.name) {
            let head = seq![
                crate::error::WarnM::SurplusKey {
                    locale: ln,
                    path: PathM { namespace: path.namespace, keys: path.keys.push(lk[0].0) },
                },
            ];
            lemma_count_concat(head, rest, t);
            assert(warn_path(t) != (PathM {
                namespace: path.namespace,
                keys: path.keys.push(lk[0].0),
            }));
            assert(head[0] != t);
            assert(head.len() == 1);
            assert(head.subrange(1, 1) =~= Seq::<crate::error::WarnM>::empty());
            assert(count_warn(head.subrange(1, 1), t) == 0);
            assert(count_warn(head, t) == 0);
            assert(spec_surplus(lk, schema, ln, path) == head + rest);
        }
    }
}

proof fn lemma_no_target_warn_entries(
    schema: Seq<(KeyM, LocaleValueM)>,
    lk: Seq<(KeyM, ValueM)>,
    ln: Seq<char>,
    path: PathM,
    t: crate::error::WarnM,
)
    requires
        warn_path(t).keys.len() <= path.keys.len() + 1,
        forall|j: int|
            0 <= j < schema.len() ==> warn_path(t) != (PathM {
                namespace: path.namespace,
                keys: path.keys.push(#[trigger] schema[j].0),
            }),
    ensures
        spec_merge_entries(schema, lk, ln, path) matches Ok(p2) ==> count_warn(p2.1, t) == 0,
    decreases schema, 1int,
{
    if schema.len() > 0 {
        let k = schema[0].0;
        let lv = schema[0].1;
        let cpath = PathM { namespace: path.namespace, keys: path.keys.push(k) };
        lemma_no_target_warn_entries(schema.subrange(1, schema.len() as int), lk, ln, path, t);
        match lv {
            LocaleValueM::Subkeys(inner) => {
                match spec_lookup_value(lk, k.name) {
                    Some(v) => {
                        if v != ValueM::Str(Seq::<char>::empty()) {
                            match v {
                                ValueM::Subkeys(les) => {
                                    assert forall|j: int|
                                        0 <= j < inner.len() implies warn_path(t) != (PathM {
                                        namespace: cpath.namespace,
                                        keys: cpath.keys.push(#[trigger] inner[j].0),
                                    }) by {
                                        assert(cpath.keys.push(inner[j].0).len() == path.keys.len()
                                            + 2);
                                    }
                                    assert forall|j: int|
                                        0 <= j < les.len() implies warn_path(t) != (PathM {
                                        namespace: cpath.namespace,
                                        keys: cpath.keys.push(#[trigger] les[j].0),
                                    }) by {
                                        assert(cpath.keys.push(les[j].0).len() == path.keys.len()
                                            + 2);
                                    }
                                    lemma_no_target_warn(inner, les, ln, cpath, t);
                                },
                                _ => {},
                            }
                        }
                    },
                    None => {},
                }
            },
            _ => {},
        }
        match spec_merge_entries(schema, lk, ln, path) {
            Ok((s2, w)) => {
                let rest = spec_merge_entries(schema.subrange(1, schema.len() as int), lk, ln, path);
                match rest {
                    Ok((rs, rw)) => {
                        let head_w = ({
                            match spec_lookup_value(lk, k.name) {
                                None => seq![
                                    crate::error::WarnM::MissingKey { locale: ln, path: cpath },
                                ],
                                Some(v) => if v == ValueM::Str(Seq::<char>::empty()) {
                                    seq![
                                        crate::error::WarnM::MissingKey {
                                            locale: ln,
                                            path: cpath,
                                        },
                                    ]
                                } else {
                                    match lv {
                                        LocaleValueM::Subkeys(inner) => match v {
                                            ValueM::Subkeys(les) => match spec_merge_locale(
                                                inner,
                                                les,
                                                ln,
                                                cpath,
                                            ) {
                                                Ok((_, ww)) => ww,
                                                Err(_) => Seq::empty(),
                                            },
                                            _ => Seq::empty(),
                                        },
                                        LocaleValueM::Value(_) => Seq::empty(),
                                    }
                                },
                            }
                        });
                        assert(w =~= head_w + rw);
                        lemma_count_concat(head_w, rw, t);
                        let miss = seq![crate::error::WarnM::MissingKey { locale: ln, path: cpath }];
                        assert(count_warn(miss, t) == 0) by {
                            assert(warn_path(t) != (PathM {
                                namespace: path.namespace,
                                keys: path.keys.push(schema[0].0),
                            }));
                            assert(miss[0] != t);
                            assert(miss.len() == 1);
                            assert(miss.subrange(1, 1) =~= Seq::<crate::error::WarnM>::empty());
                            assert(count_warn(miss.subrange(1, 1), t) == 0);
                        }
                        assert(count_warn(Seq::<crate::error::WarnM>::empty(), t) == 0);
                        assert(count_warn(head_w, t) == 0) by {
                            match spec_lookup_value(lk, k.name) {
                                None => {
                                    assert(head_w == miss);
                                },
                                Some(v) => {
                                    if v == ValueM::Str(Seq::<char>::empty()) {
                                        assert(head_w == miss);
                                    } else {
                                        match lv {
                                            LocaleValueM::Subkeys(inner) => {
                                                match v {
                                                    ValueM::Subkeys(les) => {
                                                        match spec_merge_locale(
                                                            inner,
                                                            les,
                                                            ln,
                                                            cpath,
                                                        ) {
                                                            Ok((_, ww)) => {
                                                                assert(head_w == ww);
                                                            },
                                                            Err(_) => {},
                                                        }
                                                    },
                                                    _ => {},
                                                }
                                            },
                                            LocaleValueM::Value(_) => {
                                                assert(head_w == Seq::<
                                                    crate::error::WarnM,
                                                >::empty());
                                            },
                                        }
                                    }
                                },
                            }
                        }
                    },
                    Err(_) => {},
                }
            },
            Err(_) => {},
        }
    }
}

proof fn lemma_surplus_no_missing(
    lk: Seq<(KeyM, ValueM)>,
    schema: Seq<(KeyM, LocaleValueM)>,
    ln: Seq<char>,
    path: PathM,
    t: crate::error::WarnM,
)
    requires
        t is MissingKey,
    ensures
        count_warn(spec_surplus(lk, schema, ln, path), t) == 0,
    decreases lk.len(),
{
    if lk.len() > 0 {
        lemma_surplus_no_missing(lk.subrange(1, lk.len() as int), schema, ln, path, t);
        let rest = spec_surplus(lk.subrange(1, lk.len() as int), schema, ln, path);
        if !spec_schema_has_name(schema, lk[0].0.name) {
            let head = seq![
                crate::error::WarnM::SurplusKey {
                    locale: ln,
                    path: PathM { namespace: path.namespace, keys: path.keys.push(lk[0].0) },
                },
            ];
            lemma_count_concat(head, rest, t);
            assert(head[0] != t);
            assert(head.len() == 1);
            assert(head.subrange(1, 1) =~= Seq::<crate::error::WarnM>::empty());
            assert(count_warn(head.subrange(1, 1), t) == 0);
            assert(count_warn(head, t) == 0);
            assert(spec_surplus(lk, schema, ln, path) == head + rest);
        }
    }
}

#[verifier::rlimit(100)]
proof fn lemma_missing_entries_single(
    schema: Seq<(KeyM, LocaleValueM)>,
    lk: Seq<(KeyM, ValueM)>,
    ln: Seq<char>,
    path: PathM,
    i: int,
)
    requires
        0 <= i < schema.len(),
        forall|a: int, b: int|
            #![trigger schema[a].0.name, schema[b].0.name]
            0 <= a < b < schema.len() ==> schema[a].0.name != schema[b].0.name,
        spec_lookup_value(lk, schema[i].0.name) is None,
    ensures
        spec_merge_entries(schema, lk, ln, path) matches Ok(p2) ==> count_warn(
            p2.1,
            crate::error::WarnM::MissingKey {
                locale: ln,
                path: PathM { namespace: path.namespace, keys: path.keys.push(schema[i].0) },
            },
        ) == 1 && p2.0[i] == schema[i],
    decreases schema.len(),
{
    let t = crate::error::WarnM::MissingKey {
        locale: ln,
        path: PathM { namespace: path.namespace, keys: path.keys.push(schema[i].0) },
    };
    let k = schema[0].0;
    let lv = schema[0].1;
    let cpath = PathM { namespace: path.namespace, keys: path.keys.push(k) };
    let sub = schema.subrange(1, schema.len() as int);
    if i == 0 {
        assert forall|j: int| 0 <= j < sub.len() implies warn_path(t) != (PathM {
            namespace: path.namespace,
            keys: path.keys.push(#[trigger] sub[j].0),
        }) by {
            assert(sub[j].0 == schema[j + 1].0);
            assert(schema[0].0.name != schema[j + 1].0.name);
            assert(path.keys.push(schema[0].0).last() == schema[0].0);
            assert(path.keys.push(sub[j].0).last() == sub[j].0);
        }
        lemma_no_target_warn_entries(sub, lk, ln, path, t);
        match spec_merge_entries(schema, lk, ln, path) {
            Ok((s2, w)) => {
                match spec_merge_entries(sub, lk, ln, path) {
                    Ok((rs, rw)) => {
                        let head_w = seq![t];
                        assert(w =~= head_w + rw);
                        lemma_count_concat(head_w, rw, t);
                        assert(head_w.len() == 1);
                        assert(head_w.subrange(1, 1) =~= Seq::<crate::error::WarnM>::empty());
                        assert(count_warn(head_w.subrange(1, 1), t) == 0);
                        assert(count_warn(head_w, t) == 1);
                        assert(s2[0] == (k, lv));
                        assert((k, lv) == schema[0]);
                    },
                    Err(_) => {},
                }
            },
            Err(_) => {},
        }
    } else {
        assert forall|a: int, b: int|
            #![trigger sub[a].0.name, sub[b].0.name]
            0 <= a < b < sub.len() implies sub[a].0.name != sub[b].0.name by {
            assert(sub[a].0 == schema[a + 1].0);
            assert(sub[b].0 == schema[b + 1].0);
        }
        assert(sub[i - 1] == schema[i]);
        lemma_missing_entries_single(sub, lk, ln, path, i - 1);
        match spec_merge_entries(schema, lk, ln, path) {
            Ok((s2, w)) => {
                match spec_merge_entries(sub, lk, ln, path) {
                    Ok((rs, rw)) => {
                        let miss = seq![
                            crate::error::WarnM::MissingKey { locale: ln, path: cpath },
                        ];
                        assert(count_warn(miss, t) == 0) by {
                            assert(schema[0].0.name != schema[i].0.name);
                            assert(path.keys.push(schema[0].0).last() == schema[0].0);
                            assert(path.keys.push(schema[i].0).last() == schema[i].0);
                            assert(miss[0] != t);
                            assert(miss.len() == 1);
                            assert(miss.subrange(1, 1) =~= Seq::<crate::error::WarnM>::empty());
                            assert(count_warn(miss.subrange(1, 1), t) == 0);
                        }
                        assert(count_warn(Seq::<crate::error::WarnM>::empty(), t) == 0);
                        let head_w = ({
                            match spec_lookup_value(lk, k.name) {
                                None => miss,
                                Some(v) => if v == ValueM::Str(Seq::<char>::empty()) {
                                    miss
                                } else {
                                    match lv {
                                        LocaleValueM::Subkeys(inner) => match v {
                                            ValueM::Subkeys(les) => match spec_merge_locale(
                                                inner,
                                                les,
                                                ln,
                                                cpath,
                                            ) {
                                                Ok((_, ww)) => ww,
                                                Err(_) => Seq::empty(),
                                            },
                                            _ => Seq::empty(),
                                        },
                                        LocaleValueM::Value(_) => Seq::empty(),
                                    }
                                },
                            }
                        });
                        assert(w =~= head_w + rw);
                        lemma_count_concat(head_w, rw, t);
                        assert(count_warn(head_w, t) == 0) by {
                            match spec_lookup_value(lk, k.name) {
                                None => {
                                    assert(head_w == miss);
                                },
                                Some(v) => {
                                    if v == ValueM::Str(Seq::<char>::empty()) {
                                        assert(head_w == miss);
                                    } else {
                                        match lv {
                                            LocaleValueM::Subkeys(inner) => {
                                                match v {
                                                    ValueM::Subkeys(les) => {
                                                        assert forall|j: int|
                                                            0 <= j < inner.len() implies warn_path(
                                                            t,
                                                        ) != (PathM {
                                                            namespace: cpath.namespace,
                                                            keys: cpath.keys.push(
                                                                #[trigger] inner[j].0,
                                                            ),
                                                        }) by {
                                                            assert(cpath.keys.push(
                                                                inner[j].0,
                                                            ).len() == path.keys.len() + 2);
                                                        }
                                                        assert forall|j: int|
                                                            0 <= j < les.len() implies warn_path(
                                                            t,
                                                        ) != (PathM {
                                                            namespace: cpath.namespace,
                                                            keys: cpath.keys.push(
                                                                #[trigger] les[j].0,
                                                            ),
                                                        }) by {
                                                            assert(cpath.keys.push(
                                                                les[j].0,
                                                            ).len() == path.keys.len() + 2);
                                                        }
                                                        lemma_no_target_warn(
                                                            inner,
                                                            les,
                                                            ln,
                                                            cpath,
                                                            t,
                                                        );
                                                        match spec_merge_locale(
                                                            inner,
                                                            les,
                                                            ln,
                                                            cpath,
                                                        ) {
                                                            Ok((_, ww)) => {
                                                                assert(head_w == ww);
                                                            },
                                                            Err(_) => {},
                                                        }
                                                    },
                                                    _ => {},
                                                }
                                            },
                                            LocaleValueM::Value(_) => {
                                                assert(head_w == Seq::<
                                                    crate::error::WarnM,
                                                >::empty());
                                            },
                                        }
                                    }
                                },
                            }
                        }
                        lemma_merge_entries_tail(schema, lk, ln, path);
                        lemma_merge_entries_keys_preserved(schema, lk, ln, path);
                        assert(s2.len() == schema.len());
                        assert(s2[i] == rs[i - 1]);
                    },
                    Err(_) => {},
                }
            },
            Err(_) => {},
        }
    }
}

/// A key the default locale defines (in a scope of pairwise-distinct keys)
/// and another locale lacks yields exactly one missing-key warning for that
/// locale at that key's path, and the merged schema keeps the default
/// locale's classification for the key: generation falls back to the default
/// locale's reduced value.
pub proof fn lemma_missing_key_single_warning(
    schema: Seq<(KeyM, LocaleValueM)>,
    lk: Seq<(KeyM, ValueM)>,
    ln: Seq<char>,
    path: PathM,
    i: int,
)
    requires
        0 <= i < schema.len(),
        forall|a: int, b: int|
            #![trigger schema[a].0.name, schema[b].0.name]
            0 <= a < b < schema.len() ==> schema[a].0.name != schema[b].0.name,
        spec_lookup_value(lk, schema[i].0.name) is None,
    ensures
        spec_merge_locale(schema, lk, ln, path) matches Ok(p2) ==> count_warn(
            p2.1,
            crate::error::WarnM::MissingKey {
                locale: ln,
                path: PathM { namespace: path.namespace, keys: path.keys.push(schema[i].0) },
            },
        ) == 1 && p2.0[i] == schema[i],
{
    let t = crate::error::WarnM::MissingKey {
        locale: ln,
        path: PathM { namespace: path.namespace, keys: path.keys.push(schema[i].0) },
    };
    lemma_missing_entries_single(schema, lk, ln, path, i);
    lemma_surplus_no_missing(lk, schema, ln, path, t);
    match spec_merge_entries(schema, lk, ln, path) {
        Ok((s2, w)) => {
            lemma_count_concat(w, spec_surplus(lk, schema, ln, path), t);
        },
        Err(_) => {},
    }
}

proof fn lemma_surplus_count_single(
    lk: Seq<(KeyM, ValueM)>,
    schema: Seq<(KeyM, LocaleValueM)>,
    ln: Seq<char>,
    path: PathM,
    j: int,
)
    requires
        0 <= j < lk.len(),
        !spec_schema_has_name(schema, lk[j].0.name),
        forall|a: int, b: int|
            #![trigger lk[a].0.name, lk[b].0.name]
            0 <= a < b < lk.len() ==> lk[a].0.name != lk[b].0.name,
    ensures
        count_warn(
            spec_surplus(lk, schema, ln, path),
            crate::error::WarnM::SurplusKey {
                locale: ln,
                path: PathM { namespace: path.namespace, keys: path.keys.push(lk[j].0) },
            },
        ) == 1,
    decreases lk.len(),
{
    let t = crate::error::WarnM::SurplusKey {
        locale: ln,
        path: PathM { namespace: path.namespace, keys: path.keys.push(lk[j].0) },
    };
    let sub = lk.subrange(1, lk.len() as int);
    let rest = spec_surplus(sub, schema, ln, path);
    if j == 0 {
        assert forall|a: int| 0 <= a < sub.len() implies warn_path(t) != (PathM {
            namespace: path.namespace,
            keys: path.keys.push(#[trigger] sub[a].0),
        }) by {
            assert(sub[a].0 == lk[a + 1].0);
            assert(lk[0].0.name != lk[a + 1].0.name);
            assert(path.keys.push(lk[0].0).last() == lk[0].0);
            assert(path.keys.push(sub[a].0).last() == sub[a].0);
        }
        lemma_no_target_warn_surplus(sub, schema, ln, path, t);
        let head = seq![t];
        lemma_count_concat(head, rest, t);
        assert(head.len() == 1);
        assert(head.subrange(1, 1) =~= Seq::<crate::error::WarnM>::empty());
        assert(count_warn(head.subrange(1, 1), t) == 0);
        assert(count_warn(head, t) == 1);
        assert(spec_surplus(lk, schema, ln, path) == head + rest);
    } else {
        assert forall|a: int, b: int|
            #![trigger sub[a].0.name, sub[b].0.name]
            0 <= a < b < sub.len() implies sub[a].0.name != sub[b].0.name by {
            assert(sub[a].0 == lk[a + 1].0);
            assert(sub[b].0 == lk[b + 1].0);
        }
        assert(sub[j - 1] == lk[j]);
        lemma_surplus_count_single(sub, schema, ln, path, j - 1);
        if !spec_schema_has_name(schema, lk[0].0.name) {
            let head = seq![
                crate::error::WarnM::SurplusKey {
                    locale: ln,
                    path: PathM { namespace: path.namespace, keys: path.keys.push(lk[0].0) },
                },
            ];
            lemma_count_concat(head, rest, t);
            assert(count_warn(head, t) == 0) by {
                assert(lk[0].0.name != lk[j].0.name);
                assert(path.keys.push(lk[0].0).last() == lk[0].0);
                assert(path.keys.push(lk[j].0).last() == lk[j].0);
                assert(head[0] != t);
                assert(head.len() == 1);
                assert(head.subrange(1, 1) =~= Seq::<crate::error::WarnM>::empty());
                assert(count_warn(head.subrange(1, 1), t) == 0);
            }
            assert(spec_surplus(lk, schema, ln, path) == head + rest);
        }
    }
}

/// A key a locale defines (in a tree of pairwise-distinct keys) that the
/// default locale's scope does not know yields exactly one surplus-key
/// warning for that locale at that key's path, and the key does not appear in
/// the merged schema: the default locale's key set is authoritative.
pub proof fn lemma_surplus_key_single_warning(
    schema: Seq<(KeyM, LocaleValueM)>,
    lk: Seq<(KeyM, ValueM)>,
    ln: Seq<char>,
    path: PathM,
    j: int,
)
    requires
        0 <= j < lk.len(),
        !spec_schema_has_name(schema, lk[j].0.name),
        forall|a: int, b: int|
            #![trigger lk[a].0.name, lk[b].0.name]
            0 <= a < b < lk.len() ==> lk[a].0.name != lk[b].0.name,
    ensures
        spec_merge_locale(schema, lk, ln, path) matches Ok(p2) ==> count_warn(
            p2.1,
            crate::error::WarnM::SurplusKey {
                locale: ln,
                path: PathM { namespace: path.namespace, keys: path.keys.push(lk[j].0) },
            },
        ) == 1 && !spec_schema_has_name(p2.0, lk[j].0.name),
{
    let t = crate::error::WarnM::SurplusKey {
        locale: ln,
        path: PathM { namespace: path.namespace, keys: path.keys.push(lk[j].0) },
    };
    assert forall|jj: int| 0 <= jj < schema.len() implies warn_path(t) != (PathM {
        namespace: path.namespace,
        keys: path.keys.push(#[trigger] schema[jj].0),
    }) by {
        assert(schema[jj].0.name != lk[j].0.name);
        assert(path.keys.push(schema[jj].0).last() == schema[jj].0);
        assert(path.keys.push(lk[j].0).last() == lk[j].0);
    }
    lemma_no_target_warn_entries(schema, lk, ln, path, t);
    lemma_surplus_count_single(lk, schema, ln, path, j);
    lemma_merge_entries_keys_preserved(schema, lk, ln, path);
    match spec_merge_entries(schema, lk, ln, path) {
        Ok((s2, w)) => {
            lemma_count_concat(w, spec_surplus(lk, schema, ln, path), t);
            assert forall|i: int| 0 <= i < s2.len() implies s2[i].0.name != lk[j].0.name by {
                assert(s2[i].0 == schema[i].0);
            }
        },
        Err(_) => {},
    }
}

proof fn lemma_merge_entries_tail(
    schema: Seq<(KeyM, LocaleValueM)>,
    lk: Seq<(KeyM, ValueM)>,
    ln: Seq<char>,
    path: PathM,
)
    requires
        schema.len() > 0,
    ensures
        match (spec_merge_entries(schema, lk, ln, path), spec_merge_entries(
            schema.subrange(1, schema.len() as int),
            lk,
            ln,
            path,
        )) {
            (Ok(p2), Ok(pr)) => p2.0.len() == pr.0.len() + 1 && (forall|m: int|
                1 <= m < p2.0.len() ==> p2.0[m] == #[trigger] pr.0[m - 1]),
            _ => true,
        },
{
    let k = schema[0].0;
    let lv = schema[0].1;
    let cpath = PathM { namespace: path.namespace, keys: path.keys.push(k) };
    let whole = spec_merge_entries(schema, lk, ln, path);
    let rest = spec_merge_entries(schema.subrange(1, schema.len() as int), lk, ln, path);
    match (whole, rest) {
        (Ok(p2), Ok(pr)) => {
            let hr: Result<(LocaleValueM, Seq<crate::error::WarnM>), ErrM> = ({
                match spec_lookup_value(lk, k.name) {
                    None => Ok(
                        (
                            lv,
                            seq![
                                crate::error::WarnM::MissingKey { locale: ln, path: cpath },
                            ],
                        ),
                    ),
                    Some(v) => if v == ValueM::Str(Seq::<char>::empty()) {
                        Ok(
                            (
                                lv,
                                seq![
                                    crate::error::WarnM::MissingKey {
                                        locale: ln,
                                        path: cpath,
                                    },
                                ],
                            ),
                        )
                    } else {
                        match lv {
                            LocaleValueM::Subkeys(inner) => match v {
                                ValueM::Subkeys(les) => match spec_merge_locale(
                                    inner,
                                    les,
                                    ln,
                                    cpath,
                                ) {
                                    Ok((inner2, w)) => Ok((LocaleValueM::Subkeys(inner2), w)),
                                    Err(e) => Err(e),
                                },
                                _ => Err(ErrM::LocaleKeyTypeMismatch(cpath)),
                            },
                            LocaleValueM::Value(sig) => match v {
                                ValueM::Subkeys(_) => Err(ErrM::LocaleKeyTypeMismatch(cpath)),
                                _ => match spec_reduce(v, cpath) {
                                    Ok(s2) => if sigs_compatible(sig, s2) {
                                        Ok(
                                            (
                                                LocaleValueM::Value(sig_union(sig, s2)),
                                                Seq::empty(),
                                            ),
                                        )
                                    } else {
                                        Err(ErrM::LocaleKeyTypeMismatch(cpath))
                                    },
                                    Err(e) => Err(e),
                                },
                            },
                        }
                    },
                }
            });
            match hr {
                Ok((h, hw)) => {
                    assert(p2.0 == seq![(k, h)] + pr.0);
                    assert forall|m: int|
                        1 <= m < p2.0.len() implies p2.0[m] == #[trigger] pr.0[m - 1] by {
                        assert((seq![(k, h)] + pr.0)[m] == pr.0[m - 1]);
                    }
                },
                Err(_) => {
                    assert(false);
                },
            }
        },
        _ => {},
    }
}

} // verus!
