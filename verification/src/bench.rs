//! Decisions of the single-opening benchmark: its settings and its statistics.

use crate::errors::{invalid_parameters, PCSError};
use vstd::arithmetic::power::{lemma_pow0, lemma_pow1, lemma_pow_adds, pow};
use vstd::seq_lib::{to_multiset_build, to_multiset_insert};
use vstd::prelude::*;

verus! {

/// Number of verifications that the benchmark times.
pub const VERIFY_REPS: usize = 100;

/// Whether a character is white space.
pub open spec fn is_white(c: char) -> bool {
    ||| 0x9 <= c as int <= 0xd
    ||| c as int == 0x20
    ||| c as int == 0x85
    ||| c as int == 0xa0
    ||| c as int == 0x1680
    ||| 0x2000 <= c as int <= 0x200a
    ||| c as int == 0x2028
    ||| c as int == 0x2029
    ||| c as int == 0x202f
    ||| c as int == 0x205f
    ||| c as int == 0x3000
}

fn white(c: char) -> (r: bool)
    ensures
        r == is_white(c),
{
    let u: u32 = c as u32;
    (0x9 <= u && u <= 0xd) || u == 0x20 || u == 0x85 || u == 0xa0 || u == 0x1680 || (0x2000 <= u
        && u <= 0x200a) || u == 0x2028 || u == 0x2029 || u == 0x202f || u == 0x205f || u == 0x3000
}

/// A text without the white space at its two ends.
pub open spec fn trimmed(s: Seq<char>) -> Seq<char>
    decreases s.len(),
{
    if s.len() == 0 {
        s
    } else if is_white(s[0]) {
        trimmed(s.subrange(1, s.len() as int))
    } else if is_white(s.last()) {
        trimmed(s.drop_last())
    } else {
        s
    }
}

/// Whether a character is a decimal digit.
pub open spec fn is_digit(c: char) -> bool {
    0x30 <= c as int <= 0x39
}

/// Value of a sequence of decimal digits.
pub open spec fn decimal(s: Seq<char>) -> int
    decreases s.len(),
{
    if s.len() == 0 {
        0
    } else {
        decimal(s.drop_last()) * 10 + (s.last() as int - 0x30)
    }
}

/// The digits of a number that may start with a plus sign.
pub open spec fn digits_of(s: Seq<char>) -> Seq<char> {
    if s.len() > 0 && s[0] == '+' {
        s.subrange(1, s.len() as int)
    } else {
        s
    }
}

/// Whether a text is a number that fits a machine word.
pub open spec fn is_number(s: Seq<char>) -> bool {
    let d = digits_of(s);
    &&& d.len() > 0
    &&& forall|i: int| 0 <= i < d.len() ==> is_digit(#[trigger] d[i])
    &&& decimal(d) <= usize::MAX
}

proof fn lemma_decimal_prefix(d: Seq<char>, k: int)
    requires
        0 <= k <= d.len(),
        forall|i: int| 0 <= i < d.len() ==> is_digit(#[trigger] d[i]),
    ensures
        0 <= decimal(d.take(k)) <= decimal(d),
    decreases d.len() - k,
{
    lemma_decimal_nonneg(d.take(k));
    if k < d.len() {
        lemma_decimal_prefix(d, k + 1);
        assert(d.take(k + 1).drop_last() =~= d.take(k));
        assert(d.take(k + 1).last() == d[k]);
    } else {
        assert(d.take(k) =~= d);
    }
}

proof fn lemma_decimal_nonneg(d: Seq<char>)
    requires
        forall|i: int| 0 <= i < d.len() ==> is_digit(#[trigger] d[i]),
    ensures
        0 <= decimal(d),
    decreases d.len(),
{
    if d.len() > 0 {
        assert(is_digit(d[d.len() - 1]));
        assert forall|i: int| 0 <= i < d.drop_last().len() implies is_digit(
            #[trigger] d.drop_last()[i],
        ) by {
            assert(is_digit(d[i]));
        }
        lemma_decimal_nonneg(d.drop_last());
    }
}

proof fn lemma_trimmed_subrange(s: Seq<char>, a: int, b: int)
    requires
        0 <= a <= b <= s.len(),
        forall|i: int| 0 <= i < a ==> is_white(#[trigger] s[i]),
        a < b ==> !is_white(s[a]),
        forall|i: int| b <= i < s.len() ==> is_white(#[trigger] s[i]),
        a < b ==> !is_white(s[b - 1]),
    ensures
        trimmed(s) == s.subrange(a, b),
    decreases s.len(),
{
    if s.len() == 0 {
        assert(s.subrange(a, b) =~= s);
    } else if a > 0 {
        let t = s.subrange(1, s.len() as int);
        assert(is_white(s[0]));
        assert forall|i: int| 0 <= i < a - 1 implies is_white(#[trigger] t[i]) by {
            assert(is_white(s[i + 1]));
        }
        assert forall|i: int| b - 1 <= i < t.len() implies is_white(#[trigger] t[i]) by {
            assert(is_white(s[i + 1]));
        }
        lemma_trimmed_subrange(t, a - 1, b - 1);
        assert(t.subrange(a - 1, b - 1) =~= s.subrange(a, b));
    } else if b == 0 {
        let t = s.subrange(1, s.len() as int);
        assert(is_white(s[0]));
        assert forall|i: int| 0 <= i < t.len() implies is_white(#[trigger] t[i]) by {
            assert(is_white(s[i + 1]));
        }
        lemma_trimmed_subrange(t, 0, 0);
        assert(t.subrange(0, 0) =~= s.subrange(a, b));
    } else if b < s.len() {
        let t = s.drop_last();
        assert(is_white(s[s.len() - 1]));
        assert forall|i: int| b <= i < t.len() implies is_white(#[trigger] t[i]) by {
            assert(is_white(s[i]));
        }
        lemma_trimmed_subrange(t, a, b);
        assert(t.subrange(a, b) =~= s.subrange(a, b));
    } else {
        assert(s.subrange(a, b) =~= s);
    }
}

/// The bounds of the part of a text between the white space at its ends.
fn trim_bounds(s: &str) -> (r: (usize, usize))
    ensures
        r.0 <= r.1 <= s@.len(),
        trimmed(s@) == s@.subrange(r.0 as int, r.1 as int),
{
    let n: usize = s.unicode_len();
    let mut a: usize = 0;
    while a < n && white(s.get_char(a))
        invariant
            n == s@.len(),
            a <= n,
            forall|i: int| 0 <= i < a ==> is_white(#[trigger] s@[i]),
        decreases n - a,
    {
        a = a + 1;
    }
    let mut b: usize = n;
    while b > a && white(s.get_char(b - 1))
        invariant
            n == s@.len(),
            a <= b <= n,
            forall|i: int| b <= i < n ==> is_white(#[trigger] s@[i]),
        decreases b,
    {
        b = b - 1;
    }
    proof {
        lemma_trimmed_subrange(s@, a as int, b as int);
    }
    (a, b)
}

/// Reads a number that white space may surround and a plus sign may precede.
pub fn parse_number(raw: &str) -> (r: Option<usize>)
    ensures
        r is Some <==> is_number(trimmed(raw@)),
        r matches Some(v) ==> v == decimal(digits_of(trimmed(raw@))),
{
    let (a, b) = trim_bounds(raw);
    let ghost t = trimmed(raw@);
    let ghost d = digits_of(t);
    let start: usize = if a < b && raw.get_char(a) == '+' { a + 1 } else { a };
    assert(d =~= raw@.subrange(start as int, b as int));
    if start >= b {
        return None;
    }
    let mut v: usize = 0;
    let mut i: usize = start;
    while i < b
        invariant
            start <= i <= b <= raw@.len(),
            d == raw@.subrange(start as int, b as int),
            d == digits_of(t),
            t == trimmed(raw@),
            d.len() > 0,
            forall|k: int| 0 <= k < i - start ==> is_digit(#[trigger] d[k]),
            v == decimal(d.take(i - start)),
        decreases b - i,
    {
        let c = raw.get_char(i);
        assert(d[i - start] == c);
        let u: u32 = c as u32;
        if u < 0x30 || u > 0x39 {
            assert(!is_digit(d[i - start]));
            return None;
        }
        let x: usize = (u - 0x30) as usize;
        let ghost next = d.take(i - start + 1);
        proof {
            assert(next.drop_last() =~= d.take(i - start));
            assert(next.last() == c);
            if is_number(t) {
                lemma_decimal_prefix(d, i - start + 1);
            }
        }
        if v > usize::MAX / 10 || v * 10 > usize::MAX - x {
            return None;
        }
        v = v * 10 + x;
        i = i + 1;
    }
    assert(d.take(b - start) =~= d);
    Some(v)
}

/// The number of variables from the setting's text.
pub fn parse_nv(raw: Option<&str>) -> (r: Result<usize, PCSError>)
    ensures
        r is Ok <==> (raw matches Some(s) && is_number(trimmed(s@))),
        raw matches Some(s) ==> (r matches Ok(v) ==> v == decimal(digits_of(trimmed(s@)))),
        r matches Err(e) ==> e is InvalidParameters,
{
    match raw {
        None => Err(invalid_parameters("PCS_BENCH_NV is required")),
        Some(s) => match parse_number(s) {
            Some(v) => Ok(v),
            None => Err(invalid_parameters("PCS_BENCH_NV invalid")),
        },
    }
}

/// The number of threads from the setting's text, else what is available.
pub fn parse_threads(raw: Option<&str>, available: usize) -> (r: usize)
    ensures
        r == (match raw {
            Some(s) => if is_number(trimmed(s@)) {
                decimal(digits_of(trimmed(s@))) as usize
            } else {
                available
            },
            None => available,
        }),
{
    match raw {
        None => available,
        Some(s) => match parse_number(s) {
            Some(v) => v,
            None => available,
        },
    }
}

/// Sum of a sequence of samples.
pub open spec fn sample_sum(s: Seq<u64>) -> int
    decreases s.len(),
{
    if s.len() == 0 {
        0
    } else {
        sample_sum(s.drop_last()) + s.last()
    }
}

/// Mean of the samples in whole nanoseconds.
pub fn mean_ns(samples: &[u64]) -> (r: u64)
    requires
        0 < samples@.len(),
    ensures
        r == sample_sum(samples@) / (samples@.len() as int),
{
    let mut sum: u128 = 0;
    let mut i: usize = 0;
    let n: usize = samples.len();
    while i < n
        invariant
            i <= n,
            n == samples@.len(),
            sum == sample_sum(samples@.take(i as int)),
            sum <= i * u64::MAX,
        decreases n - i,
    {
        proof {
            assert(samples@.take(i + 1).drop_last() =~= samples@.take(i as int));
            assert(i * u64::MAX + u64::MAX <= u128::MAX) by (nonlinear_arith)
                requires
                    i < 0x1_0000_0000_0000_0000int,
            ;
            assert((i + 1) * u64::MAX == i * u64::MAX + u64::MAX) by (nonlinear_arith);
        }
        sum = sum + samples[i] as u128;
        i = i + 1;
    }
    proof {
        assert(samples@.take(n as int) =~= samples@);
        assert(sum / (n as u128) <= u64::MAX) by (nonlinear_arith)
            requires
                sum <= n * u64::MAX,
                n > 0,
        ;
    }
    (sum / n as u128) as u64
}

/// Whether a sequence holds the values of another in ascending order.
pub open spec fn is_sorting(s: Seq<u64>, t: Seq<u64>) -> bool {
    &&& t.to_multiset() == s.to_multiset()
    &&& forall|i: int, j: int| 0 <= i <= j < t.len() ==> t[i] <= t[j]
}

/// Upper median of the samples.
pub fn median_ns(samples: &[u64]) -> (r: u64)
    requires
        0 < samples@.len(),
    ensures
        exists|t: Seq<u64>| #[trigger]
            is_sorting(samples@, t) && r == t[samples@.len() as int / 2],
{
    let n: usize = samples.len();
    let mut sorted: Vec<u64> = Vec::new();
    let mut i: usize = 0;
    assert(samples@.take(0) =~= sorted@);
    while i < n
        invariant
            i <= n == samples@.len(),
            sorted@.len() == i,
            is_sorting(samples@.take(i as int), sorted@),
        decreases n - i,
    {
        let x: u64 = samples[i];
        let mut k: usize = i;
        while k > 0 && sorted[k - 1] > x
            invariant
                k <= i == sorted@.len(),
                forall|j: int| k <= j < i ==> sorted@[j] > x,
            decreases k,
        {
            k = k - 1;
        }
        let ghost before = sorted@;
        sorted.insert(k, x);
        proof {
            to_multiset_insert(before, k as int, x);
            to_multiset_build(samples@.take(i as int), x);
            assert(samples@.take(i + 1) =~= samples@.take(i as int).push(x));
            assert(sorted@.to_multiset() == samples@.take(i + 1).to_multiset());
        }
        i = i + 1;
    }
    proof {
        assert(samples@.take(n as int) =~= samples@);
        assert(is_sorting(samples@, sorted@));
    }
    sorted[n / 2]
}

/// A scheme that the benchmark knows by name.
#[derive(Clone, Copy, Debug, PartialEq, Eq, Structural)]
pub enum Backend {
    MultilinearKzg,
    Gemini,
    Mulcs,
    Samaritan,
    Zeromorph,
    ReciPcs,
    NestedGrid,
    Mercury,
    Chopin,
}

/// Code of a character, with the capital letters of ASCII made small.
pub open spec fn lower(c: char) -> int {
    if 0x41 <= c as int <= 0x5a {
        c as int + 0x20
    } else {
        c as int
    }
}

/// Whether a text is a name up to the case of ASCII letters.
pub open spec fn is_named(s: Seq<char>, name: Seq<char>) -> bool {
    &&& s.len() == name.len()
    &&& forall|i: int| 0 <= i < s.len() ==> lower(#[trigger] s[i]) == name[i] as int
}

/// The scheme that a text names. Two schemes have a second name: `vela` for
/// `recipcs` and `carina` for `nrg`.
pub open spec fn backend_of(s: Seq<char>) -> Option<Backend> {
    if is_named(s, "mkzg"@) {
        Some(Backend::MultilinearKzg)
    } else if is_named(s, "gemini"@) {
        Some(Backend::Gemini)
    } else if is_named(s, "mulcs"@) {
        Some(Backend::Mulcs)
    } else if is_named(s, "samaritan"@) {
        Some(Backend::Samaritan)
    } else if is_named(s, "zeromorph"@) {
        Some(Backend::Zeromorph)
    } else if is_named(s, "recipcs"@) || is_named(s, "vela"@) {
        Some(Backend::ReciPcs)
    } else if is_named(s, "nrg"@) || is_named(s, "carina"@) {
        Some(Backend::NestedGrid)
    } else if is_named(s, "mercury"@) {
        Some(Backend::Mercury)
    } else if is_named(s, "chopin"@) {
        Some(Backend::Chopin)
    } else {
        None
    }
}

fn matches_name(raw: &str, a: usize, b: usize, name: &str) -> (r: bool)
    requires
        a <= b <= raw@.len(),
    ensures
        r == is_named(raw@.subrange(a as int, b as int), name@),
{
    let ghost s = raw@.subrange(a as int, b as int);
    if name.unicode_len() != b - a {
        return false;
    }
    let mut i: usize = 0;
    while i < b - a
        invariant
            a <= b <= raw@.len(),
            s == raw@.subrange(a as int, b as int),
            name@.len() == b - a,
            i <= b - a,
            forall|k: int| 0 <= k < i ==> lower(#[trigger] s[k]) == name@[k] as int,
        decreases b - a - i,
    {
        let c: u32 = raw.get_char(a + i) as u32;
        let l: u32 = if 0x41 <= c && c <= 0x5a { c + 0x20 } else { c };
        let want: u32 = name.get_char(i) as u32;
        assert(lower(s[i as int]) == l);
        if l != want {
            return false;
        }
        i = i + 1;
    }
    true
}

/// The scheme from the setting's text.
pub fn parse_backend(raw: Option<&str>) -> (r: Result<Backend, PCSError>)
    ensures
        r is Ok <==> (raw matches Some(s) && backend_of(trimmed(s@)) is Some),
        r matches Ok(b) ==> (raw matches Some(s) && backend_of(trimmed(s@)) == Some(b)),
        r matches Err(e) ==> e is InvalidParameters,
{
    match raw {
        None => Err(invalid_parameters("PCS_BENCH_BACKEND is required")),
        Some(s) => {
            let (a, b) = trim_bounds(s);
            if matches_name(s, a, b, "mkzg") {
                Ok(Backend::MultilinearKzg)
            } else if matches_name(s, a, b, "gemini") {
                Ok(Backend::Gemini)
            } else if matches_name(s, a, b, "mulcs") {
                Ok(Backend::Mulcs)
            } else if matches_name(s, a, b, "samaritan") {
                Ok(Backend::Samaritan)
            } else if matches_name(s, a, b, "zeromorph") {
                Ok(Backend::Zeromorph)
            } else if matches_name(s, a, b, "recipcs") || matches_name(s, a, b, "vela") {
                Ok(Backend::ReciPcs)
            } else if matches_name(s, a, b, "nrg") || matches_name(s, a, b, "carina") {
                Ok(Backend::NestedGrid)
            } else if matches_name(s, a, b, "mercury") {
                Ok(Backend::Mercury)
            } else if matches_name(s, a, b, "chopin") {
                Ok(Backend::Chopin)
            } else {
                Err(invalid_parameters("unsupported backend"))
            }
        },
    }
}

/// The value of a number is the sum of its digits, each times the power of ten of its
/// place.
pub proof fn law_decimal_places(a: Seq<char>, b: Seq<char>)
    ensures
        decimal(a + b) == decimal(a) * pow(10, b.len()) + decimal(b),
        b.len() == 1 ==> decimal(b) == b[0] as int - 0x30,
    decreases b.len(),
{
    reveal_with_fuel(decimal, 2);
    lemma_pow0(10);
    if b.len() == 0 {
        assert(a + b =~= a);
    } else {
        let c = b.drop_last();
        law_decimal_places(a, c);
        assert((a + b).drop_last() =~= a + c);
        assert((a + b).last() == b.last());
        lemma_pow1(10);
        lemma_pow_adds(10, c.len(), 1);
        let p = pow(10, c.len());
        assert(decimal(a) * (p * 10) == (decimal(a) * p) * 10) by (nonlinear_arith);
        if b.len() == 1 {
            assert(c =~= Seq::empty());
        }
    }
}

/// Whether a text has white space alone before `a` and from `b` on.
pub open spec fn white_around(s: Seq<char>, a: int, b: int) -> bool {
    &&& 0 <= a <= b <= s.len()
    &&& forall|i: int| 0 <= i < a ==> is_white(#[trigger] s[i])
    &&& forall|i: int| b <= i < s.len() ==> is_white(#[trigger] s[i])
}

/// What is trimmed off a text is white space.
pub proof fn law_trimmed(s: Seq<char>) -> (r: (int, int))
    ensures
        white_around(s, r.0, r.1),
        trimmed(s) == s.subrange(r.0, r.1),
    decreases s.len(),
{
    let n = s.len() as int;
    if n == 0 {
        assert(trimmed(s) =~= s.subrange(0, 0));
        (0, 0)
    } else if is_white(s[0]) {
        let t = s.subrange(1, n);
        let (a, b) = law_trimmed(t);
        assert(t.subrange(a, b) =~= s.subrange(a + 1, b + 1));
        assert forall|i: int| 0 <= i < a + 1 implies is_white(#[trigger] s[i]) by {
            if i > 0 {
                assert(is_white(t[i - 1]));
            }
        }
        assert forall|i: int| b + 1 <= i < n implies is_white(#[trigger] s[i]) by {
            assert(is_white(t[i - 1]));
        }
        (a + 1, b + 1)
    } else if is_white(s.last()) {
        let t = s.drop_last();
        let (a, b) = law_trimmed(t);
        assert(t.subrange(a, b) =~= s.subrange(a, b));
        assert forall|i: int| 0 <= i < a implies is_white(#[trigger] s[i]) by {
            assert(is_white(t[i]));
        }
        assert forall|i: int| b <= i < n implies is_white(#[trigger] s[i]) by {
            if i < n - 1 {
                assert(is_white(t[i]));
            }
        }
        (a, b)
    } else {
        assert(s.subrange(0, n) =~= s);
        (0, n)
    }
}

/// No white space is left at the ends of what is trimmed.
pub proof fn law_trimmed_ends(s: Seq<char>)
    ensures
        trimmed(s).len() > 0 ==> !is_white(trimmed(s)[0]) && !is_white(trimmed(s).last()),
    decreases s.len(),
{
    if s.len() > 0 {
        law_trimmed_ends(s.subrange(1, s.len() as int));
        law_trimmed_ends(s.drop_last());
    }
}

/// The sum of samples lies between as many of the least and as many of the greatest, so
/// their mean lies between the two.
pub proof fn law_mean_lies_between(s: Seq<u64>, lo: int, hi: int)
    requires
        forall|i: int| 0 <= i < s.len() ==> lo <= #[trigger] s[i] <= hi,
    ensures
        s.len() * lo <= sample_sum(s) <= s.len() * hi,
        s.len() > 0 ==> lo <= sample_sum(s) / (s.len() as int) <= hi,
    decreases s.len(),
{
    let n = s.len() as int;
    if n > 0 {
        let t = s.drop_last();
        assert forall|i: int| 0 <= i < t.len() implies lo <= #[trigger] t[i] <= hi by {
            assert(lo <= s[i] <= hi);
        }
        law_mean_lies_between(t, lo, hi);
        assert(lo <= s[n - 1] <= hi);
        assert(n * lo == (n - 1) * lo + lo && n * hi == (n - 1) * hi + hi) by (nonlinear_arith);
        let m = sample_sum(s);
        assert(lo <= m / n <= hi) by (nonlinear_arith)
            requires
                n > 0,
                n * lo <= m <= n * hi,
        ;
    }
}

/// The case of ASCII letters does not change what a text names.
pub proof fn law_case_is_ignored(s: Seq<char>, t: Seq<char>)
    requires
        s.len() == t.len(),
        forall|i: int| 0 <= i < s.len() ==> lower(#[trigger] s[i]) == lower(t[i]),
    ensures
        backend_of(s) == backend_of(t),
{
    assert forall|name: Seq<char>| #[trigger] is_named(s, name) == is_named(t, name) by {
        if is_named(s, name) {
            assert forall|i: int| 0 <= i < t.len() implies lower(#[trigger] t[i])
                == name[i] as int by {
                assert(lower(s[i]) == name[i] as int);
            }
        }
        if is_named(t, name) {
            assert forall|i: int| 0 <= i < s.len() implies lower(#[trigger] s[i])
                == name[i] as int by {
                assert(lower(t[i]) == name[i] as int);
            }
        }
    }
}

/// Every text of digits whose value fits a machine word is read as a number, with or
/// without a plus sign before it.
pub proof fn law_numbers_are_read(d: Seq<char>)
    requires
        d.len() > 0,
        forall|i: int| 0 <= i < d.len() ==> 0x30 <= (#[trigger] d[i]) as int <= 0x39,
        decimal(d) <= usize::MAX,
    ensures
        is_number(d),
        digits_of(d) == d,
        is_number(seq!['+'] + d),
        digits_of(seq!['+'] + d) == d,
{
    assert(0x30 <= d[0] as int <= 0x39);
    let s = seq!['+'] + d;
    assert(s.subrange(1, s.len() as int) =~= d);
}

/// A sorting has the values of the samples, as many, in ascending order.
pub proof fn law_sorting(s: Seq<u64>, t: Seq<u64>, x: u64)
    requires
        is_sorting(s, t),
    ensures
        t.len() == s.len(),
        s.contains(x) <==> t.contains(x),
        forall|i: int, j: int| 0 <= i <= j < t.len() ==> t[i] <= t[j],
{
    s.to_multiset_ensures();
    t.to_multiset_ensures();
    assert(s.to_multiset().count(x) == t.to_multiset().count(x));
}

} // verus!
