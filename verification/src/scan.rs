use vstd::prelude::*;

verus! {

/// Verified character-wise string equality.
pub fn str_eq(a: &str, b: &str) -> (r: bool)
    ensures
        r == (a@ == b@),
{
    let n = a.unicode_len();
    let m = b.unicode_len();
    if n != m {
        proof {
            assert(a@ != b@);
        }
        return false;
    }
    let mut i: usize = 0;
    while i < n
        invariant
            i <= n,
            n == a@.len(),
            n == b@.len(),
            forall|j: int| 0 <= j < i ==> a@[j] == b@[j],
        decreases n - i,
    {
        if a.get_char(i) != b.get_char(i) {
            proof {
                assert(a@[i as int] != b@[i as int]);
            }
            return false;
        }
        i = i + 1;
    }
    proof {
        assert(a@ =~= b@);
    }
    true
}

/// Whether a character is an ASCII decimal digit.
pub open spec fn is_digit(c: char) -> bool {
    48 <= c as u32 <= 57
}

/// The numeric value of one digit.
pub open spec fn digit_val(c: char) -> int {
    c as u32 - 48
}

/// The non-negative integer the digit string denotes.
pub open spec fn digits_to_int(s: Seq<char>) -> int
    decreases s.len(),
{
    if s.len() == 0 {
        0
    } else {
        digits_to_int(s.drop_last()) * 10 + digit_val(s.last())
    }
}

pub open spec fn pow10(n: nat) -> int
    decreases n,
{
    if n == 0 {
        1
    } else {
        10 * pow10((n - 1) as nat)
    }
}

pub proof fn lemma_digits_bound(s: Seq<char>)
    requires
        forall|i: int| 0 <= i < s.len() ==> is_digit(#[trigger] s[i]),
    ensures
        0 <= digits_to_int(s) < pow10(s.len()),
    decreases s.len(),
{
    if s.len() > 0 {
        assert(is_digit(s.last()));
        lemma_digits_bound(s.drop_last());
    }
}

/// A count selector holds at most 19 digits, so that its value fits a `u64`.
pub open spec fn spec_parse_u64(s: Seq<char>) -> Option<u64> {
    if 1 <= s.len() <= 19 && (forall|i: int| 0 <= i < s.len() ==> is_digit(#[trigger] s[i])) {
        Some(digits_to_int(s) as u64)
    } else {
        None
    }
}

proof fn lemma_pow10_19()
    ensures
        pow10(19) == 10_000_000_000_000_000_000,
{
    reveal_with_fuel(pow10, 20);
}

/// Reads the digit string `v[lo..hi]` as a count.
#[verifier::loop_isolation(false)]
pub fn parse_u64(v: &Vec<char>, lo: usize, hi: usize) -> (r: Option<u64>)
    requires
        lo <= hi <= v@.len(),
    ensures
        r == spec_parse_u64(v@.subrange(lo as int, hi as int)),
        r matches Some(x) ==> x == digits_to_int(v@.subrange(lo as int, hi as int)),
{
    let ghost s = v@.subrange(lo as int, hi as int);
    if hi - lo < 1 || hi - lo > 19 {
        return None;
    }
    let mut acc: u64 = 0;
    let mut i: usize = lo;
    while i < hi
        invariant
            lo <= i <= hi,
            forall|j: int| lo <= j < i ==> is_digit(#[trigger] v@[j]),
            acc == digits_to_int(v@.subrange(lo as int, i as int)),
            acc < pow10((i - lo) as nat),
        decreases hi - i,
    {
        let u = v[i] as u32;
        if u < 48 || u > 57 {
            proof {
                assert(!is_digit(s[i - lo]));
            }
            return None;
        }
        let d: u64 = ((u - 48) as u64);
        proof {
            lemma_pow10_19();
            assert(pow10((i - lo) as nat) <= pow10(18)) by {
                lemma_pow10_monotone((i - lo) as nat, 18);
            }
            assert(pow10(18) * 10 == pow10(19));
            assert(acc * 10 + d < pow10(19));
        }
        let next: u64 = acc * 10 + d;
        proof {
            let t = v@.subrange(lo as int, i as int + 1);
            assert(t.drop_last() =~= v@.subrange(lo as int, i as int));
            assert(t.last() == v@[i as int]);
        }
        acc = next;
        i = i + 1;
    }
    proof {
        assert(forall|j: int| 0 <= j < s.len() ==> is_digit(#[trigger] s[j]));
    }
    Some(acc)
}

proof fn lemma_pow10_monotone(a: nat, b: nat)
    requires
        a <= b,
    ensures
        pow10(a) <= pow10(b),
        pow10(a) >= 1,
    decreases b,
{
    if a < b {
        lemma_pow10_monotone(a, (b - 1) as nat);
    } else if b > 0 {
        lemma_pow10_monotone((a - 1) as nat, (b - 1) as nat);
    }
}

/// The first position at or after `from` where `c` occurs.
pub open spec fn find_char(s: Seq<char>, c: char, from: int) -> Option<int>
    decreases s.len() - from,
{
    if from < 0 || from >= s.len() {
        None
    } else if s[from] == c {
        Some(from)
    } else {
        find_char(s, c, from + 1)
    }
}

pub proof fn lemma_find_char(s: Seq<char>, c: char, from: int)
    requires
        0 <= from,
    ensures
        find_char(s, c, from) matches Some(i) ==> from <= i < s.len() && s[i] == c && (forall|
            j: int,
        |
            from <= j < i ==> s[j] != c),
        find_char(s, c, from) is None ==> forall|j: int| from <= j < s.len() && j >= 0 ==> s[j]
            != c,
    decreases s.len() - from,
{
    if 0 <= from < s.len() && s[from] != c {
        lemma_find_char(s, c, from + 1);
    }
}

/// Finds the first occurrence of `c` in `v[from..]`.
#[verifier::loop_isolation(false)]
pub fn find_char_exec(v: &Vec<char>, c: char, from: usize) -> (r: Option<usize>)
    ensures
        match r {
            Some(i) => from <= i < v@.len() && find_char(v@, c, from as int) == Some(i as int),
            None => find_char(v@, c, from as int) is None,
        },
{
    let n = v.len();
    let mut i: usize = from;
    while i < n
        invariant
            from <= i,
            n == v@.len(),
            find_char(v@, c, from as int) == find_char(v@, c, i as int),
        decreases n - i,
    {
        if v[i] == c {
            return Some(i);
        }
        i = i + 1;
    }
    None
}

/// The first position at or after `from` where the range separator `..=`
/// starts.
pub open spec fn find_sep(s: Seq<char>, from: int) -> Option<int>
    decreases s.len() - from,
{
    if from < 0 || from + 3 > s.len() {
        None
    } else if s[from] == '.' && s[from + 1] == '.' && s[from + 2] == '=' {
        Some(from)
    } else {
        find_sep(s, from + 1)
    }
}

/// Finds the first occurrence of the range separator `..=` in `v[from..]`.
#[verifier::loop_isolation(false)]
pub fn find_sep_exec(v: &Vec<char>, from: usize) -> (r: Option<usize>)
    ensures
        match r {
            Some(i) => from <= i && i + 3 <= v@.len() && find_sep(v@, from as int) == Some(
                i as int,
            ),
            None => find_sep(v@, from as int) is None,
        },
{
    let n = v.len();
    if n < 3 {
        return None;
    }
    let mut i: usize = from;
    while i <= n - 3
        invariant
            from <= i,
            3 <= n == v@.len(),
            find_sep(v@, from as int) == find_sep(v@, i as int),
        decreases n - i,
    {
        if v[i] == '.' && v[i + 1] == '.' && v[i + 2] == '=' {
            return Some(i);
        }
        i = i + 1;
    }
    None
}

} // verus!
