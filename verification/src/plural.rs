use vstd::prelude::*;
use crate::error::Error;
use crate::error::ErrM;
use crate::key::KeyPath;
use crate::value::arm_models;
use crate::value::lemma_arm_models;
use crate::value::ParsedValue;
use crate::value::Selector;
use crate::value::ValueM;

verus! {

/// Whether a selector matches a count. Evaluation of a plural construct is
/// first-match over its arms in authored order.
pub open spec fn sel_matches(s: Selector, n: u64) -> bool {
    match s {
        Selector::Exact(v) => n == v,
        Selector::Range(lo, hi) => lo <= n && n <= hi,
        Selector::Fallback => true,
    }
}

/// Whether two arms of one plural construct can both match the same count.
/// The catch-all is meant to cover whatever the other arms leave out, so a
/// pair of one fallback and one numeric selector does not count as overlap;
/// a second fallback does.
pub open spec fn sels_overlap(a: Selector, b: Selector) -> bool {
    match (a, b) {
        (Selector::Fallback, Selector::Fallback) => true,
        (Selector::Fallback, _) => false,
        (_, Selector::Fallback) => false,
        (Selector::Exact(x), Selector::Exact(y)) => x == y,
        (Selector::Exact(x), Selector::Range(lo, hi)) => lo <= x && x <= hi,
        (Selector::Range(lo, hi), Selector::Exact(x)) => lo <= x && x <= hi,
        (Selector::Range(l1, h1), Selector::Range(l2, h2)) => l1 <= h1 && l2 <= h2 && l1 <= h2
            && l2 <= h1,
    }
}

/// Overlap is exactly joint matchability, except that a catch-all arm beside
/// a numeric arm is no overlap.
pub proof fn lemma_overlap_semantic(a: Selector, b: Selector)
    ensures
        sels_overlap(a, b) <==> ((exists|n: u64| sel_matches(a, n) && sel_matches(b, n)) && (a
            is Fallback <==> b is Fallback)),
{
    if sels_overlap(a, b) {
        let w: u64 = match (a, b) {
            (Selector::Fallback, Selector::Fallback) => 0,
            (Selector::Exact(x), _) => x,
            (Selector::Range(l1, _), Selector::Range(l2, _)) => if l1 >= l2 {
                l1
            } else {
                l2
            },
            (Selector::Range(_, _), Selector::Exact(x)) => x,
            _ => 0,
        };
        assert(sel_matches(a, w) && sel_matches(b, w));
    }
}

/// The selectors of a plural construct's arms, in order.
pub open spec fn sels_of(arms: Seq<(Selector, ValueM)>) -> Seq<Selector> {
    Seq::new(arms.len(), |i: int| arms[i].0)
}

/// Whether some pair of arms overlaps.
pub open spec fn spec_overlapping(sels: Seq<Selector>) -> bool {
    exists|i: int, j: int| 0 <= i < j < sels.len() && sels_overlap(sels[i], sels[j])
}

/// Whether some arm is the catch-all.
pub open spec fn spec_has_fallback(sels: Seq<Selector>) -> bool {
    exists|i: int| 0 <= i < sels.len() && sels[i] is Fallback
}

fn sel_matches_exec(s: Selector, n: u64) -> (r: bool)
    ensures
        r == sel_matches(s, n),
{
    match s {
        Selector::Exact(v) => n == v,
        Selector::Range(lo, hi) => lo <= n && n <= hi,
        Selector::Fallback => true,
    }
}

fn sels_overlap_exec(a: Selector, b: Selector) -> (r: bool)
    ensures
        r == sels_overlap(a, b),
{
    match (a, b) {
        (Selector::Fallback, Selector::Fallback) => true,
        (Selector::Fallback, _) => false,
        (_, Selector::Fallback) => false,
        (Selector::Exact(x), Selector::Exact(y)) => x == y,
        (Selector::Exact(x), Selector::Range(lo, hi)) => lo <= x && x <= hi,
        (Selector::Range(lo, hi), Selector::Exact(x)) => lo <= x && x <= hi,
        (Selector::Range(l1, h1), Selector::Range(l2, h2)) => l1 <= h1 && l2 <= h2 && l1 <= h2
            && l2 <= h1,
    }
}

/// Validates one plural construct, enforced per key per locale at merge time:
/// overlapping arms and a missing catch-all are each reported, independently,
/// the overlap first.
#[verifier::loop_isolation(false)]
pub fn check_arms(path: &KeyPath, arms: &Vec<(Selector, ParsedValue)>) -> (errs: Vec<Error>)
    ensures
        ({
            let sels = sels_of(arm_models(arms@));
            let want_overlap = spec_overlapping(sels);
            let want_nonex = !spec_has_fallback(sels);
            &&& errs@.len() == (if want_overlap {
                1int
            } else {
                0int
            }) + (if want_nonex {
                1int
            } else {
                0int
            })
            &&& (want_overlap ==> errs@[0]@ == ErrM::OverlappingPluralSelectors(path@))
            &&& (want_nonex ==> errs@[errs@.len() - 1]@ == ErrM::NonExhaustivePlural(path@))
        }),
{
    proof {
        broadcast use lemma_arm_models;

    }
    let ghost sels = sels_of(arm_models(arms@));
    let n = arms.len();
    let mut overlap = false;
    let mut fallback = false;
    let mut i: usize = 0;
    while i < n
        invariant
            i <= n,
            n == sels.len(),
            overlap == exists|a: int, b: int| 0 <= a < b < i && sels_overlap(sels[a], sels[b]),
            fallback == exists|a: int| 0 <= a < i && sels[a] is Fallback,
        decreases n - i,
    {
        proof {
            assert(sels[i as int] == arms@[i as int].0);
        }
        if sel_is_fallback(&arms[i].0) {
            fallback = true;
            proof {
                assert(sels[i as int] is Fallback);
            }
        }
        let mut j: usize = 0;
        while j < i
            invariant
                j <= i < n,
                overlap == ((exists|a: int, b: int|
                    0 <= a < b < i && sels_overlap(sels[a], sels[b])) || (exists|a: int|
                    0 <= a < j && sels_overlap(sels[a], sels[i as int]))),
            decreases i - j,
        {
            proof {
                assert(sels[j as int] == arms@[j as int].0);
            }
            if sels_overlap_exec(arms[j].0, arms[i].0) {
                overlap = true;
                proof {
                    assert(sels_overlap(sels[j as int], sels[i as int]));
                }
            }
            j = j + 1;
        }
        proof {
            if overlap {
                if exists|a: int| 0 <= a < i && sels_overlap(sels[a], sels[i as int]) {
                    let a = choose|a: int| 0 <= a < i && sels_overlap(sels[a], sels[i as int]);
                    assert(0 <= a < i + 1 && a < i + 1 && sels_overlap(sels[a], sels[i as int]));
                }
            } else {
                assert forall|a: int, b: int| 0 <= a < b < i + 1 implies !sels_overlap(
                    sels[a],
                    sels[b],
                ) by {
                    if b < i {
                        assert(!(exists|x: int, y: int|
                            0 <= x < y < i && sels_overlap(sels[x], sels[y])));
                    } else {
                        assert(!(exists|x: int|
                            0 <= x < i && sels_overlap(sels[x], sels[i as int])));
                    }
                }
            }
            if fallback && !(sels[i as int] is Fallback) {
                let a = choose|a: int| 0 <= a < i && sels[a] is Fallback;
                assert(0 <= a < i + 1 && sels[a] is Fallback);
            }
        }
        i = i + 1;
    }
    let mut errs: Vec<Error> = Vec::new();
    if overlap {
        errs.push(Error::OverlappingPluralSelectors(path.clone()));
    }
    if !fallback {
        errs.push(Error::NonExhaustivePlural(path.clone()));
    }
    errs
}

fn sel_is_fallback(s: &Selector) -> (r: bool)
    ensures
        r == (s is Fallback),
{
    match s {
        Selector::Fallback => true,
        _ => false,
    }
}

/// The value a plural construct selects for a count: the first arm, in
/// authored order, whose selector matches.
pub open spec fn spec_select(arms: Seq<(Selector, ValueM)>, n: u64) -> Option<ValueM>
    decreases arms,
{
    if arms.len() == 0 {
        None
    } else if sel_matches(arms[0].0, n) {
        Some(arms[0].1)
    } else {
        spec_select(arms.subrange(1, arms.len() as int), n)
    }
}

/// First-match evaluation of a plural construct over its arms as authored.
#[verifier::loop_isolation(false)]
pub fn select_arm<'a>(arms: &'a Vec<(Selector, ParsedValue)>, n: u64) -> (r: Option<
    &'a ParsedValue,
>)
    ensures
        match r {
            Some(v) => spec_select(arm_models(arms@), n) == Some(v@),
            None => spec_select(arm_models(arms@), n) is None,
        },
{
    proof {
        broadcast use lemma_arm_models;

    }
    let ghost am = arm_models(arms@);
    proof {
        assert(am.subrange(0, am.len() as int) =~= am);
    }
    let mut i: usize = 0;
    while i < arms.len()
        invariant
            i <= am.len(),
            spec_select(am, n) == spec_select(am.subrange(i as int, am.len() as int), n),
        decreases am.len() - i,
    {
        if sel_matches_exec(arms[i].0, n) {
            proof {
                assert(am.subrange(i as int, am.len() as int)[0] == am[i as int]);
            }
            return Some(&arms[i].1);
        }
        proof {
            let tail = am.subrange(i as int, am.len() as int);
            assert(tail.subrange(1, tail.len() as int) =~= am.subrange(
                i as int + 1,
                am.len() as int,
            ));
        }
        i = i + 1;
    }
    proof {
        assert(am.subrange(am.len() as int, am.len() as int) =~= Seq::<(Selector, ValueM)>::empty());
    }
    None
}

} // verus!
