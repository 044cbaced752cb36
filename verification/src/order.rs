//! Natural ordering of trace names.
//!
//! A name is split on `/` into segments; a segment decomposes into maximal
//! runs of decimal digits and of other text.  Runs of digits compare by
//! numeric value, runs of text compare by code point, text sorts before
//! numbers, and a shorter sequence of runs (or of segments) sorts before
//! one that extends it.

use crate::text::{all_digits, chars_vec, digits_val, is_digit, lemma_digits_val_bound,
    lemma_digits_val_first, lemma_pow10_pos, pow10, spec_digit_val, spec_is_digit,
    string_from_chars};
use vstd::prelude::*;

verus! {

/// Outcome of a comparison.
#[derive(Clone, Copy, Debug, PartialEq, Eq, Structural)]
pub enum Rel {
    Less,
    Equal,
    Greater,
}

/// The outcome of the comparison with its sides swapped.
pub open spec fn flip(r: Rel) -> Rel {
    match r {
        Rel::Less => Rel::Greater,
        Rel::Equal => Rel::Equal,
        Rel::Greater => Rel::Less,
    }
}

/// `f` behaves like a total comparison: swapping sides flips the outcome,
/// strict outcomes chain, and elements comparing equal are interchangeable
/// on the left.
pub open spec fn is_total_cmp<T>(f: spec_fn(T, T) -> Rel) -> bool {
    &&& forall|x: T, y: T| #[trigger] f(x, y) == flip(f(y, x))
    &&& forall|x: T, y: T, z: T|
        #![trigger f(x, y), f(y, z)]
        f(x, y) == Rel::Less && f(y, z) == Rel::Less ==> f(x, z) == Rel::Less
    &&& forall|x: T, y: T, z: T|
        #![trigger f(x, y), f(x, z)]
        f(x, y) == Rel::Equal ==> f(x, z) == f(y, z)
}

/// Lexicographic comparison of two sequences by an element comparison:
/// the first strict outcome decides, and a sequence sorts before any
/// proper extension of it.
pub open spec fn lex_cmp<T>(a: Seq<T>, b: Seq<T>, f: spec_fn(T, T) -> Rel) -> Rel
    decreases a.len(),
{
    if a.len() == 0 && b.len() == 0 {
        Rel::Equal
    } else if a.len() == 0 {
        Rel::Less
    } else if b.len() == 0 {
        Rel::Greater
    } else {
        match f(a[0], b[0]) {
            Rel::Equal => lex_cmp(a.drop_first(), b.drop_first(), f),
            r => r,
        }
    }
}

pub proof fn lemma_lex_flip<T>(a: Seq<T>, b: Seq<T>, f: spec_fn(T, T) -> Rel)
    requires
        is_total_cmp(f),
    ensures
        lex_cmp(a, b, f) == flip(lex_cmp(b, a, f)),
    decreases a.len(),
{
    if a.len() > 0 && b.len() > 0 {
        assert(f(a[0], b[0]) == flip(f(b[0], a[0])));
        if f(a[0], b[0]) == Rel::Equal {
            lemma_lex_flip(a.drop_first(), b.drop_first(), f);
        }
    }
}

pub proof fn lemma_lex_trans_less<T>(a: Seq<T>, b: Seq<T>, c: Seq<T>, f: spec_fn(T, T) -> Rel)
    requires
        is_total_cmp(f),
        lex_cmp(a, b, f) == Rel::Less,
        lex_cmp(b, c, f) == Rel::Less,
    ensures
        lex_cmp(a, c, f) == Rel::Less,
    decreases a.len(),
{
    if a.len() == 0 {
    } else {
        let hab = f(a[0], b[0]);
        let hbc = f(b[0], c[0]);
        if hab == Rel::Equal && hbc == Rel::Equal {
            assert(f(a[0], c[0]) == f(b[0], c[0]));
            lemma_lex_trans_less(a.drop_first(), b.drop_first(), c.drop_first(), f);
        } else if hab == Rel::Equal {
            assert(f(a[0], c[0]) == f(b[0], c[0]));
        } else if hbc == Rel::Equal {
            assert(f(b[0], a[0]) == f(c[0], a[0]));
            assert(f(b[0], a[0]) == flip(f(a[0], b[0])));
            assert(f(a[0], c[0]) == flip(f(c[0], a[0])));
        } else {
            assert(f(a[0], c[0]) == Rel::Less);
        }
    }
}

pub proof fn lemma_lex_equal_congruence<T>(a: Seq<T>, b: Seq<T>, c: Seq<T>, f: spec_fn(
    T,
    T,
) -> Rel)
    requires
        is_total_cmp(f),
        lex_cmp(a, b, f) == Rel::Equal,
    ensures
        lex_cmp(a, c, f) == lex_cmp(b, c, f),
    decreases a.len(),
{
    if a.len() == 0 {
    } else {
        assert(b.len() > 0);
        assert(f(a[0], b[0]) == Rel::Equal);
        if c.len() > 0 {
            assert(f(a[0], c[0]) == f(b[0], c[0]));
            if f(a[0], c[0]) == Rel::Equal {
                lemma_lex_equal_congruence(a.drop_first(), b.drop_first(), c.drop_first(), f);
            }
        }
    }
}

/// Lexicographic extension of a total comparison is a total comparison.
pub proof fn lemma_lex_is_total<T>(f: spec_fn(T, T) -> Rel)
    requires
        is_total_cmp(f),
    ensures
        is_total_cmp(|a: Seq<T>, b: Seq<T>| lex_cmp(a, b, f)),
{
    let g = |a: Seq<T>, b: Seq<T>| lex_cmp(a, b, f);
    assert forall|x: Seq<T>, y: Seq<T>| #[trigger] g(x, y) == flip(g(y, x)) by {
        lemma_lex_flip(x, y, f);
    }
    assert forall|x: Seq<T>, y: Seq<T>, z: Seq<T>|
        #![trigger g(x, y), g(y, z)]
        g(x, y) == Rel::Less && g(y, z) == Rel::Less implies g(x, z) == Rel::Less by {
        lemma_lex_trans_less(x, y, z, f);
    }
    assert forall|x: Seq<T>, y: Seq<T>, z: Seq<T>|
        #![trigger g(x, y), g(x, z)]
        g(x, y) == Rel::Equal implies g(x, z) == g(y, z) by {
        lemma_lex_equal_congruence(x, y, z, f);
    }
}

/// One maximal run of a segment: either non-numerical text or the numeric
/// value of a run of decimal digits.
pub enum SpecRun {
    Text(Seq<char>),
    Number(int),
}

/// Characters compare by code point.
pub open spec fn char_cmp(x: char, y: char) -> Rel {
    if (x as u32) < (y as u32) {
        Rel::Less
    } else if x as u32 == y as u32 {
        Rel::Equal
    } else {
        Rel::Greater
    }
}

pub open spec fn char_cmp_fn() -> spec_fn(char, char) -> Rel {
    |x: char, y: char| char_cmp(x, y)
}

pub proof fn lemma_char_cmp_total()
    ensures
        is_total_cmp(char_cmp_fn()),
{
}

/// Runs compare by kind first (text before numbers), then text by code
/// point and numbers by value.
pub open spec fn run_cmp(x: SpecRun, y: SpecRun) -> Rel {
    match (x, y) {
        (SpecRun::Text(s1), SpecRun::Text(s2)) => lex_cmp(s1, s2, char_cmp_fn()),
        (SpecRun::Number(n1), SpecRun::Number(n2)) => if n1 < n2 {
            Rel::Less
        } else if n1 == n2 {
            Rel::Equal
        } else {
            Rel::Greater
        },
        (SpecRun::Text(_), SpecRun::Number(_)) => Rel::Less,
        (SpecRun::Number(_), SpecRun::Text(_)) => Rel::Greater,
    }
}

pub open spec fn run_cmp_fn() -> spec_fn(SpecRun, SpecRun) -> Rel {
    |x: SpecRun, y: SpecRun| run_cmp(x, y)
}

pub proof fn lemma_run_cmp_total()
    ensures
        is_total_cmp(run_cmp_fn()),
{
    lemma_char_cmp_total();
    let f = run_cmp_fn();
    assert forall|x: SpecRun, y: SpecRun| #[trigger] f(x, y) == flip(f(y, x)) by {
        match (x, y) {
            (SpecRun::Text(s1), SpecRun::Text(s2)) => {
                lemma_lex_flip(s1, s2, char_cmp_fn());
            },
            _ => {},
        }
    }
    assert forall|x: SpecRun, y: SpecRun, z: SpecRun|
        #![trigger f(x, y), f(y, z)]
        f(x, y) == Rel::Less && f(y, z) == Rel::Less implies f(x, z) == Rel::Less by {
        match (x, y, z) {
            (SpecRun::Text(s1), SpecRun::Text(s2), SpecRun::Text(s3)) => {
                lemma_lex_trans_less(s1, s2, s3, char_cmp_fn());
            },
            _ => {},
        }
    }
    assert forall|x: SpecRun, y: SpecRun, z: SpecRun|
        #![trigger f(x, y), f(x, z)]
        f(x, y) == Rel::Equal implies f(x, z) == f(y, z) by {
        match (x, y) {
            (SpecRun::Text(s1), SpecRun::Text(s2)) => {
                match z {
                    SpecRun::Text(s3) => {
                        lemma_lex_equal_congruence(s1, s2, s3, char_cmp_fn());
                    },
                    SpecRun::Number(_) => {},
                }
            },
            _ => {},
        }
    }
}

/// Length of the first maximal run of `s`: the longest prefix whose
/// characters agree with the first one on being a decimal digit.
pub open spec fn run_len(s: Seq<char>) -> int
    decreases s.len(),
{
    if s.len() <= 1 {
        s.len() as int
    } else if spec_is_digit(s[1]) == spec_is_digit(s[0]) {
        1 + run_len(s.drop_first())
    } else {
        1
    }
}

pub proof fn lemma_run_len_bounds(s: Seq<char>)
    requires
        s.len() > 0,
    ensures
        1 <= run_len(s) <= s.len(),
    decreases s.len(),
{
    if s.len() > 1 && spec_is_digit(s[1]) == spec_is_digit(s[0]) {
        lemma_run_len_bounds(s.drop_first());
    }
}

/// The first run is uniform in digit-ness and maximal.
pub proof fn lemma_run_len_spec(s: Seq<char>)
    requires
        s.len() > 0,
    ensures
        forall|i: int| 0 <= i < run_len(s) ==> spec_is_digit(#[trigger] s[i]) == spec_is_digit(
            s[0],
        ),
        run_len(s) < s.len() ==> spec_is_digit(s[run_len(s)]) != spec_is_digit(s[0]),
    decreases s.len(),
{
    lemma_run_len_bounds(s);
    if s.len() > 1 && spec_is_digit(s[1]) == spec_is_digit(s[0]) {
        let t = s.drop_first();
        lemma_run_len_spec(t);
        lemma_run_len_bounds(t);
        assert(t[0] == s[1]);
        assert forall|i: int| 0 <= i < run_len(s) implies spec_is_digit(#[trigger] s[i])
            == spec_is_digit(s[0]) by {
            if i > 0 {
                assert(t[i - 1] == s[i]);
                assert(spec_is_digit(t[i - 1]) == spec_is_digit(t[0]));
            }
        }
        if run_len(s) < s.len() {
            assert(t[run_len(t)] == s[run_len(s)]);
            assert(spec_is_digit(t[run_len(t)]) != spec_is_digit(t[0]));
        }
    }
}

/// Any uniform, maximal prefix length is the run length.
pub proof fn lemma_run_len_unique(s: Seq<char>, n: int)
    requires
        s.len() > 0,
        1 <= n <= s.len(),
        forall|i: int| 0 <= i < n ==> spec_is_digit(#[trigger] s[i]) == spec_is_digit(s[0]),
        n < s.len() ==> spec_is_digit(s[n]) != spec_is_digit(s[0]),
    ensures
        n == run_len(s),
{
    lemma_run_len_bounds(s);
    lemma_run_len_spec(s);
    if n < run_len(s) {
        assert(spec_is_digit(s[n]) == spec_is_digit(s[0]));
    } else if n > run_len(s) {
        assert(spec_is_digit(s[run_len(s)]) == spec_is_digit(s[0]));
    }
}

/// The run denoted by a non-empty uniform slice of characters.
pub open spec fn mk_run(r: Seq<char>) -> SpecRun {
    if r.len() > 0 && spec_is_digit(r[0]) {
        SpecRun::Number(digits_val(r))
    } else {
        SpecRun::Text(r)
    }
}

/// Decompose a segment into its maximal runs.
pub open spec fn decompose(s: Seq<char>) -> Seq<SpecRun>
    decreases s.len(),
{
    if s.len() == 0 {
        Seq::empty()
    } else {
        let n0 = run_len(s);
        let n = if n0 < 1 {
            1
        } else if n0 > s.len() {
            s.len() as int
        } else {
            n0
        };
        seq![mk_run(s.take(n))] + decompose(s.skip(n))
    }
}

/// Position of the first `/` in `s`, or -1 if there is none.
pub open spec fn first_slash(s: Seq<char>) -> int
    decreases s.len(),
{
    if s.len() == 0 {
        -1
    } else if s[0] == '/' {
        0
    } else {
        let r = first_slash(s.drop_first());
        if r < 0 {
            -1
        } else {
            1 + r
        }
    }
}

pub proof fn lemma_first_slash_spec(s: Seq<char>)
    ensures
        first_slash(s) >= 0 ==> first_slash(s) < s.len() && s[first_slash(s)] == '/',
        forall|i: int| 0 <= i < s.len() && i < first_slash(s) ==> s[i] != '/',
        first_slash(s) < 0 ==> forall|i: int| 0 <= i < s.len() ==> s[i] != '/',
    decreases s.len(),
{
    if s.len() > 0 && s[0] != '/' {
        let t = s.drop_first();
        lemma_first_slash_spec(t);
        assert forall|i: int| 0 <= i < s.len() && i < first_slash(s) implies s[i] != '/' by {
            if i > 0 {
                assert(t[i - 1] == s[i]);
                assert(t[i - 1] != '/');
            }
        }
        if first_slash(s) < 0 {
            assert forall|i: int| 0 <= i < s.len() implies s[i] != '/' by {
                if i > 0 {
                    assert(t[i - 1] == s[i]);
                    assert(t[i - 1] != '/');
                }
            }
        }
    }
}

pub proof fn lemma_first_slash_unique(s: Seq<char>, j: int)
    requires
        0 <= j < s.len(),
        s[j] == '/',
        forall|i: int| 0 <= i < j ==> s[i] != '/',
    ensures
        first_slash(s) == j,
{
    lemma_first_slash_spec(s);
    if first_slash(s) < 0 {
        assert(s[j] != '/');
    } else if first_slash(s) < j {
        assert(s[first_slash(s)] != '/');
    } else if first_slash(s) > j {
        assert(s[j] != '/');
    }
}

pub proof fn lemma_first_slash_none(s: Seq<char>)
    requires
        forall|i: int| 0 <= i < s.len() ==> s[i] != '/',
    ensures
        first_slash(s) < 0,
{
    lemma_first_slash_spec(s);
    if first_slash(s) >= 0 {
        assert(s[first_slash(s)] != '/');
    }
}

/// Split a name into its `/`-separated segments.  A name without a
/// separator is one segment; separators at the ends produce empty
/// segments, as the harness's own splitting does.
pub open spec fn seg_split(s: Seq<char>) -> Seq<Seq<char>>
    decreases s.len(),
{
    let f = first_slash(s);
    if f < 0 || f >= s.len() {
        seq![s]
    } else {
        seq![s.take(f)] + seg_split(s.skip(f + 1))
    }
}

/// The fully decomposed form of a name: runs, per segment.
pub open spec fn name_key(s: Seq<char>) -> Seq<Seq<SpecRun>> {
    seg_split(s).map_values(|seg: Seq<char>| decompose(seg))
}

/// Segments compare as their run sequences, lexicographically.
pub open spec fn seg_cmp_fn() -> spec_fn(Seq<SpecRun>, Seq<SpecRun>) -> Rel {
    |a: Seq<SpecRun>, b: Seq<SpecRun>| lex_cmp(a, b, run_cmp_fn())
}

/// The natural order on trace names: compare the decomposed forms,
/// segment by segment.
#[verifier::opaque]
pub open spec fn name_cmp(a: Seq<char>, b: Seq<char>) -> Rel {
    lex_cmp(name_key(a), name_key(b), seg_cmp_fn())
}

pub proof fn lemma_seg_cmp_total()
    ensures
        is_total_cmp(seg_cmp_fn()),
{
    lemma_run_cmp_total();
    lemma_lex_is_total(run_cmp_fn());
    assert(seg_cmp_fn() == |a: Seq<SpecRun>, b: Seq<SpecRun>| lex_cmp(a, b, run_cmp_fn()));
}

/// Swapping the names flips the comparison.
pub proof fn lemma_name_cmp_flip(a: Seq<char>, b: Seq<char>)
    ensures
        name_cmp(a, b) == flip(name_cmp(b, a)),
{
    reveal(name_cmp);
    lemma_seg_cmp_total();
    lemma_lex_flip(name_key(a), name_key(b), seg_cmp_fn());
}

/// A name compares equal to itself.
pub proof fn lemma_name_cmp_refl(a: Seq<char>)
    ensures
        name_cmp(a, a) == Rel::Equal,
{
    lemma_name_cmp_flip(a, a);
}

/// The natural order is transitive.
pub proof fn lemma_name_cmp_trans(a: Seq<char>, b: Seq<char>, c: Seq<char>)
    requires
        name_cmp(a, b) == Rel::Less,
        name_cmp(b, c) == Rel::Less,
    ensures
        name_cmp(a, c) == Rel::Less,
{
    reveal(name_cmp);
    lemma_seg_cmp_total();
    lemma_lex_trans_less(name_key(a), name_key(b), name_key(c), seg_cmp_fn());
}

/// Names that compare equal order the same way against any third name.
pub proof fn lemma_name_cmp_equal_congruence(a: Seq<char>, b: Seq<char>, c: Seq<char>)
    requires
        name_cmp(a, b) == Rel::Equal,
    ensures
        name_cmp(a, c) == name_cmp(b, c),
{
    reveal(name_cmp);
    lemma_seg_cmp_total();
    lemma_lex_equal_congruence(name_key(a), name_key(b), name_key(c), seg_cmp_fn());
}

/// Comparison of two integers.
pub open spec fn int_cmp(a: int, b: int) -> Rel {
    if a < b {
        Rel::Less
    } else if a == b {
        Rel::Equal
    } else {
        Rel::Greater
    }
}

proof fn lemma_pow10_monotone(a: nat, b: nat)
    requires
        a <= b,
    ensures
        pow10(a) <= pow10(b),
    decreases b,
{
    if a < b {
        lemma_pow10_monotone(a, (b - 1) as nat);
        lemma_pow10_pos((b - 1) as nat);
    }
}

/// A leading zero does not change the denoted value.
proof fn lemma_digits_val_leading_zero(s: Seq<char>)
    requires
        s.len() > 0,
        s[0] as u32 == 48,
    ensures
        digits_val(s) == digits_val(s.drop_first()),
{
    lemma_digits_val_first(s);
    vstd::arithmetic::mul::lemma_mul_basics(pow10((s.len() - 1) as nat));
    assert(spec_digit_val(s[0]) == 0);
    assert(spec_digit_val(s[0]) * pow10((s.len() - 1) as nat) == 0);
}

/// Dropping any number of leading zeros does not change the denoted value.
proof fn lemma_digits_val_skip_zeros(s: Seq<char>, k: int)
    requires
        0 <= k <= s.len(),
        forall|i: int| 0 <= i < k ==> #[trigger] s[i] as u32 == 48,
    ensures
        digits_val(s) == digits_val(s.skip(k)),
    decreases k,
{
    if k == 0 {
        assert(s.skip(0) =~= s);
    } else {
        assert(s[0] as u32 == 48);
        lemma_digits_val_leading_zero(s);
        let t = s.drop_first();
        assert forall|i: int| 0 <= i < k - 1 implies #[trigger] t[i] as u32 == 48 by {
            assert(t[i] == s[i + 1]);
            assert(s[i + 1] as u32 == 48);
        }
        lemma_digits_val_skip_zeros(t, k - 1);
        assert(t.skip(k - 1) =~= s.skip(k));
    }
}

/// A digit sequence without a leading zero denotes at least `pow10` of one
/// less than its length.
proof fn lemma_digits_val_min(s: Seq<char>)
    requires
        s.len() > 0,
        all_digits(s),
        s[0] as u32 != 48,
    ensures
        digits_val(s) >= pow10((s.len() - 1) as nat),
{
    lemma_digits_val_first(s);
    let p = pow10((s.len() - 1) as nat);
    lemma_pow10_pos((s.len() - 1) as nat);
    assert(spec_is_digit(s[0]));
    assert(spec_digit_val(s[0]) >= 1);
    vstd::arithmetic::mul::lemma_mul_inequality(1, spec_digit_val(s[0]), p);
    assert(all_digits(s.drop_first())) by {
        assert(forall|i: int|
            0 <= i < s.len() - 1 ==> #[trigger] s.drop_first()[i] == s[i + 1]);
    }
    lemma_digits_val_bound(s.drop_first());
}

/// Same-length digit sequences with a common prefix compare by the first
/// differing digit.
proof fn lemma_digits_lex_less(x: Seq<char>, y: Seq<char>, k: int)
    requires
        x.len() == y.len(),
        all_digits(x),
        all_digits(y),
        0 <= k < x.len(),
        forall|j: int| 0 <= j < k ==> #[trigger] x[j] as u32 == y[j] as u32,
        spec_digit_val(x[k]) < spec_digit_val(y[k]),
    ensures
        digits_val(x) < digits_val(y),
    decreases k,
{
    lemma_digits_val_first(x);
    lemma_digits_val_first(y);
    let p = pow10((x.len() - 1) as nat);
    let xt = x.drop_first();
    let yt = y.drop_first();
    assert(all_digits(xt) && all_digits(yt)) by {
        assert(forall|i: int| 0 <= i < xt.len() ==> #[trigger] xt[i] == x[i + 1]);
        assert(forall|i: int| 0 <= i < yt.len() ==> #[trigger] yt[i] == y[i + 1]);
    }
    if k == 0 {
        lemma_digits_val_bound(xt);
        lemma_digits_val_bound(yt);
        assert(spec_digit_val(x[0]) + 1 <= spec_digit_val(y[0]));
        vstd::arithmetic::mul::lemma_mul_inequality(
            spec_digit_val(x[0]) + 1,
            spec_digit_val(y[0]),
            p,
        );
        assert((spec_digit_val(x[0]) + 1) * p == spec_digit_val(x[0]) * p + p) by {
            vstd::arithmetic::mul::lemma_mul_is_distributive_add_other_way(
                p,
                spec_digit_val(x[0]),
                1,
            );
        }
        lemma_digits_val_bound(yt);
    } else {
        assert(x[0] as u32 == y[0] as u32);
        assert(spec_digit_val(x[0]) == spec_digit_val(y[0]));
        assert forall|j: int| 0 <= j < k - 1 implies #[trigger] xt[j] as u32 == yt[j] as u32 by {
            assert(xt[j] == x[j + 1] && yt[j] == y[j + 1]);
            assert(x[j + 1] as u32 == y[j + 1] as u32);
        }
        assert(xt[k - 1] == x[k] && yt[k - 1] == y[k]);
        lemma_digits_lex_less(xt, yt, k - 1);
    }
}

/// Sequences with pairwise-equal prefixes compare as their tails do.
proof fn lemma_lex_cmp_skip<T>(a: Seq<T>, b: Seq<T>, f: spec_fn(T, T) -> Rel, i: int)
    requires
        0 <= i <= a.len(),
        i <= b.len(),
        forall|j: int| 0 <= j < i ==> f(#[trigger] a[j], b[j]) == Rel::Equal,
    ensures
        lex_cmp(a, b, f) == lex_cmp(a.skip(i), b.skip(i), f),
    decreases i,
{
    if i == 0 {
        assert(a.skip(0) =~= a);
        assert(b.skip(0) =~= b);
    } else {
        assert(f(a[0], b[0]) == Rel::Equal);
        let at = a.drop_first();
        let bt = b.drop_first();
        assert(forall|j: int| 0 <= j < i - 1 ==> #[trigger] at[j] == a[j + 1] && #[trigger] bt[j]
            == b[j + 1]);
        lemma_lex_cmp_skip(at, bt, f, i - 1);
        assert(at.skip(i - 1) =~= a.skip(i));
        assert(bt.skip(i - 1) =~= b.skip(i));
    }
}

/// Digit sequences with pointwise-equal code points denote the same value.
proof fn lemma_digits_val_codes(x: Seq<char>, y: Seq<char>)
    requires
        x.len() == y.len(),
        forall|i: int| 0 <= i < x.len() ==> #[trigger] x[i] as u32 == y[i] as u32,
    ensures
        digits_val(x) == digits_val(y),
    decreases x.len(),
{
    if x.len() > 0 {
        let xt = x.drop_last();
        let yt = y.drop_last();
        assert forall|i: int| 0 <= i < xt.len() implies #[trigger] xt[i] as u32
            == yt[i] as u32 by {
            assert(xt[i] == x[i] && yt[i] == y[i]);
            assert(x[i] as u32 == y[i] as u32);
        }
        lemma_digits_val_codes(xt, yt);
        assert(x.last() as u32 == y.last() as u32);
        assert(spec_digit_val(x.last()) == spec_digit_val(y.last()));
    }
}

/// Compare two runs of decimal digits by the number they denote.
fn cmp_digit_seqs(x: &Vec<char>, y: &Vec<char>) -> (r: Rel)
    requires
        x@.len() > 0,
        all_digits(x@),
        y@.len() > 0,
        all_digits(y@),
    ensures
        r == int_cmp(digits_val(x@), digits_val(y@)),
{
    let sx: usize = skip_zeros(x);
    let sy: usize = skip_zeros(y);
    proof {
        lemma_digits_val_skip_zeros(x@, sx as int);
        lemma_digits_val_skip_zeros(y@, sy as int);
    }
    let ghost xs = x@.skip(sx as int);
    let ghost ys = y@.skip(sy as int);
    proof {
        assert(all_digits(xs) && all_digits(ys)) by {
            assert(forall|i: int| 0 <= i < xs.len() ==> #[trigger] xs[i] == x@[i + sx]);
            assert(forall|i: int| 0 <= i < ys.len() ==> #[trigger] ys[i] == y@[i + sy]);
        }
    }
    let lx: usize = x.len() - sx;
    let ly: usize = y.len() - sy;
    if lx < ly {
        proof {
            lemma_digits_val_bound(xs);
            lemma_digits_val_min(ys);
            lemma_pow10_monotone(xs.len(), (ys.len() - 1) as nat);
        }
        return Rel::Less;
    }
    if lx > ly {
        proof {
            lemma_digits_val_bound(ys);
            lemma_digits_val_min(xs);
            lemma_pow10_monotone(ys.len(), (xs.len() - 1) as nat);
        }
        return Rel::Greater;
    }
    let mut k: usize = 0;
    while k < lx
        invariant
            lx == ly,
            sx + lx == x@.len(),
            sy + ly == y@.len(),
            x@.len() <= usize::MAX,
            y@.len() <= usize::MAX,
            k <= lx,
            xs == x@.skip(sx as int),
            ys == y@.skip(sy as int),
            all_digits(x@),
            all_digits(y@),
            all_digits(xs),
            all_digits(ys),
            digits_val(x@) == digits_val(xs),
            digits_val(y@) == digits_val(ys),
            forall|j: int| 0 <= j < k ==> #[trigger] xs[j] as u32 == ys[j] as u32,
        decreases lx - k,
    {
        let cx: u32 = char_code(x[sx + k]);
        let cy: u32 = char_code(y[sy + k]);
        proof {
            assert(xs[k as int] == x@[(sx + k) as int]);
            assert(ys[k as int] == y@[(sy + k) as int]);
        }
        if cx < cy {
            proof {
                lemma_digits_lex_less(xs, ys, k as int);
            }
            return Rel::Less;
        }
        if cy < cx {
            proof {
                assert forall|j: int| 0 <= j < k implies #[trigger] ys[j] as u32
                    == xs[j] as u32 by {
                    assert(xs[j] as u32 == ys[j] as u32);
                }
                lemma_digits_lex_less(ys, xs, k as int);
            }
            return Rel::Greater;
        }
        k = k + 1;
    }
    proof {
        lemma_digits_val_codes(xs, ys);
    }
    Rel::Equal
}

/// The code point of a character.
fn char_code(c: char) -> (r: u32)
    ensures
        r == c as u32,
{
    c as u32
}

/// Index of the first character of `v` that is not a zero digit.
fn skip_zeros(v: &Vec<char>) -> (r: usize)
    ensures
        r <= v@.len(),
        forall|i: int| 0 <= i < r ==> #[trigger] v@[i] as u32 == 48,
        r < v@.len() ==> v@[r as int] as u32 != 48,
{
    let mut i: usize = 0;
    while i < v.len()
        invariant
            i <= v@.len(),
            forall|j: int| 0 <= j < i ==> #[trigger] v@[j] as u32 == 48,
        decreases v@.len() - i,
    {
        if char_code(v[i]) != 48 {
            return i;
        }
        i = i + 1;
    }
    i
}

/// Compare two character sequences by code point, shorter prefixes first.
fn cmp_char_seqs(x: &Vec<char>, y: &Vec<char>) -> (r: Rel)
    ensures
        r == lex_cmp(x@, y@, char_cmp_fn()),
{
    let n: usize = if x.len() < y.len() {
        x.len()
    } else {
        y.len()
    };
    let mut k: usize = 0;
    while k < n
        invariant
            n <= x@.len(),
            n <= y@.len(),
            n == if x@.len() < y@.len() {
                x@.len()
            } else {
                y@.len()
            },
            k <= n,
            forall|j: int| 0 <= j < k ==> char_cmp(#[trigger] x@[j], y@[j]) == Rel::Equal,
        decreases n - k,
    {
        let cx: u32 = x[k] as u32;
        let cy: u32 = y[k] as u32;
        if cx < cy {
            proof {
                lemma_lex_cmp_skip(x@, y@, char_cmp_fn(), k as int);
                assert(x@.skip(k as int)[0] == x@[k as int]);
                assert(y@.skip(k as int)[0] == y@[k as int]);
            }
            return Rel::Less;
        }
        if cx > cy {
            proof {
                lemma_lex_cmp_skip(x@, y@, char_cmp_fn(), k as int);
                assert(x@.skip(k as int)[0] == x@[k as int]);
                assert(y@.skip(k as int)[0] == y@[k as int]);
            }
            return Rel::Greater;
        }
        k = k + 1;
    }
    proof {
        lemma_lex_cmp_skip(x@, y@, char_cmp_fn(), n as int);
        if x@.len() < y@.len() {
            assert(x@.skip(n as int).len() == 0);
            assert(y@.skip(n as int).len() > 0);
        } else if x@.len() > y@.len() {
            assert(y@.skip(n as int).len() == 0);
            assert(x@.skip(n as int).len() > 0);
        } else {
            assert(x@.skip(n as int).len() == 0);
            assert(y@.skip(n as int).len() == 0);
        }
    }
    if x.len() < y.len() {
        Rel::Less
    } else if x.len() > y.len() {
        Rel::Greater
    } else {
        Rel::Equal
    }
}


/// One maximal run as executable data: the characters of the run, and
/// whether they are digits.
struct RunPiece {
    digits: bool,
    chars: Vec<char>,
}

/// The run denoted by a piece.
spec fn run_view(r: RunPiece) -> SpecRun {
    if r.digits {
        SpecRun::Number(digits_val(r.chars@))
    } else {
        SpecRun::Text(r.chars@)
    }
}

spec fn run_view_fn() -> spec_fn(RunPiece) -> SpecRun {
    |r: RunPiece| run_view(r)
}

/// A piece faithfully represents one maximal run.
spec fn wf_piece(r: RunPiece) -> bool {
    &&& r.chars@.len() > 0
    &&& r.digits == spec_is_digit(r.chars@[0])
    &&& r.digits ==> all_digits(r.chars@)
}

/// Copy `v[from..to]` into a fresh vector.
fn copy_range(v: &Vec<char>, from: usize, to: usize) -> (out: Vec<char>)
    requires
        from <= to <= v@.len(),
    ensures
        out@ == v@.subrange(from as int, to as int),
{
    let mut out: Vec<char> = Vec::new();
    let mut i: usize = from;
    while i < to
        invariant
            from <= i <= to <= v@.len(),
            out@ == v@.subrange(from as int, i as int),
        decreases to - i,
    {
        out.push(v[i]);
        i = i + 1;
        proof {
            assert(out@ =~= v@.subrange(from as int, i as int));
        }
    }
    out
}

/// Index just past the maximal run that starts at `from`.
fn scan_run_end(v: &Vec<char>, from: usize) -> (j: usize)
    requires
        from < v@.len(),
    ensures
        from < j <= v@.len(),
        j - from == run_len(v@.skip(from as int)),
{
    let ghost s = v@.skip(from as int);
    proof {
        assert(forall|i: int| 0 <= i < s.len() ==> #[trigger] s[i] == v@[from + i]);
    }
    let len: usize = v.len();
    let first_digit: bool = is_digit(v[from]);
    let mut j: usize = from + 1;
    while j < len
        invariant
            len == v@.len(),
            from < j <= v@.len(),
            s == v@.skip(from as int),
            forall|i: int| 0 <= i < s.len() ==> #[trigger] s[i] == v@[from + i],
            first_digit == spec_is_digit(v@[from as int]),
            forall|i: int| from <= i < j ==> spec_is_digit(#[trigger] v@[i]) == first_digit,
        decreases v@.len() - j,
    {
        if is_digit(v[j]) != first_digit {
            proof {
                assert forall|i: int| 0 <= i < j - from implies spec_is_digit(#[trigger] s[i])
                    == spec_is_digit(s[0]) by {
                    assert(s[i] == v@[from + i]);
                }
                assert(s[j - from] == v@[j as int]);
                lemma_run_len_unique(s, j - from);
            }
            return j;
        }
        j = j + 1;
    }
    proof {
        assert forall|i: int| 0 <= i < j - from implies spec_is_digit(#[trigger] s[i])
            == spec_is_digit(s[0]) by {
            assert(s[i] == v@[from + i]);
        }
        lemma_run_len_unique(s, j - from);
    }
    j
}

/// Decompose `v[from..]` into its maximal runs.
fn decompose_from(v: &Vec<char>, from: usize) -> (runs: Vec<RunPiece>)
    requires
        from <= v@.len(),
    ensures
        runs@.map_values(run_view_fn()) == decompose(v@.skip(from as int)),
        forall|i: int| 0 <= i < runs@.len() ==> wf_piece(#[trigger] runs@[i]),
    decreases v@.len() - from,
{
    let ghost s = v@.skip(from as int);
    if from >= v.len() {
        let out: Vec<RunPiece> = Vec::new();
        proof {
            assert(s.len() == 0);
            assert(out@.map_values(run_view_fn()) =~= decompose(s));
        }
        return out;
    }
    let j: usize = scan_run_end(v, from);
    let chars: Vec<char> = copy_range(v, from, j);
    let digits: bool = is_digit(v[from]);
    let piece = RunPiece { digits, chars };
    let mut rest: Vec<RunPiece> = decompose_from(v, j);
    let mut out: Vec<RunPiece> = Vec::new();
    out.push(piece);
    out.append(&mut rest);
    proof {
        let n = run_len(s);
        lemma_run_len_bounds(s);
        lemma_run_len_spec(s);
        assert(forall|i: int| 0 <= i < s.len() ==> #[trigger] s[i] == v@[from + i]);
        assert(out@[0].chars@ =~= s.take(n));
        assert(s.skip(n) =~= v@.skip(j as int));
        assert(out@[0].digits == spec_is_digit(s[0]));
        assert(wf_piece(out@[0])) by {
            if out@[0].digits {
                assert forall|i: int| 0 <= i < out@[0].chars@.len() implies spec_is_digit(
                    #[trigger] out@[0].chars@[i],
                ) by {
                    assert(out@[0].chars@[i] == s[i]);
                    assert(spec_is_digit(s[i]) == spec_is_digit(s[0]));
                }
            }
        }
        assert(run_view_fn()(out@[0]) == mk_run(s.take(n))) by {
            assert(s.take(n)[0] == s[0]);
        }
        assert(decompose(s) == seq![mk_run(s.take(n))] + decompose(s.skip(n)));
        assert(out@.map_values(run_view_fn()) =~= decompose(s)) by {
            assert(forall|i: int|
                0 <= i < rest@.len() ==> #[trigger] out@[i + 1] == rest@[i]);
        }
    }
    out
}

/// Index of the first `/` at or after `from`, or the length if none.
fn find_slash(v: &Vec<char>, from: usize) -> (r: usize)
    requires
        from <= v@.len(),
    ensures
        from <= r <= v@.len(),
        r < v@.len() ==> first_slash(v@.skip(from as int)) == r - from,
        r == v@.len() ==> first_slash(v@.skip(from as int)) < 0,
{
    let ghost s = v@.skip(from as int);
    proof {
        assert(forall|i: int| 0 <= i < s.len() ==> #[trigger] s[i] == v@[from + i]);
    }
    let mut r: usize = from;
    while r < v.len()
        invariant
            from <= r <= v@.len(),
            s == v@.skip(from as int),
            forall|i: int| 0 <= i < s.len() ==> #[trigger] s[i] == v@[from + i],
            forall|i: int| from <= i < r ==> v@[i] != '/',
        decreases v@.len() - r,
    {
        if v[r] == '/' {
            proof {
                assert forall|i: int| 0 <= i < r - from implies s[i] != '/' by {
                    assert(s[i] == v@[from + i]);
                }
                assert(s[r - from] == v@[r as int]);
                lemma_first_slash_unique(s, r - from);
            }
            return r;
        }
        r = r + 1;
    }
    proof {
        assert forall|i: int| 0 <= i < s.len() implies s[i] != '/' by {
            assert(s[i] == v@[from + i]);
        }
        lemma_first_slash_none(s);
    }
    r
}

spec fn seg_view_fn() -> spec_fn(Vec<char>) -> Seq<char> {
    |x: Vec<char>| x@
}

/// Split `v[from..]` into its `/`-separated segments.
fn split_from(v: &Vec<char>, from: usize) -> (segs: Vec<Vec<char>>)
    requires
        from <= v@.len(),
    ensures
        segs@.map_values(seg_view_fn()) == seg_split(v@.skip(from as int)),
    decreases v@.len() - from,
{
    let ghost s = v@.skip(from as int);
    let r: usize = find_slash(v, from);
    if r == v.len() {
        let seg: Vec<char> = copy_range(v, from, r);
        let mut out: Vec<Vec<char>> = Vec::new();
        out.push(seg);
        proof {
            assert(out@[0]@ =~= s);
            assert(out@.map_values(seg_view_fn()) =~= seg_split(s));
        }
        out
    } else {
        let seg: Vec<char> = copy_range(v, from, r);
        let mut rest: Vec<Vec<char>> = split_from(v, r + 1);
        let mut out: Vec<Vec<char>> = Vec::new();
        out.push(seg);
        out.append(&mut rest);
        proof {
            let f = first_slash(s);
            assert(f == r - from);
            assert(forall|i: int| 0 <= i < s.len() ==> #[trigger] s[i] == v@[from + i]);
            assert(out@[0]@ =~= s.take(f));
            assert(s.skip(f + 1) =~= v@.skip(r + 1));
            assert(seg_split(s) == seq![s.take(f)] + seg_split(s.skip(f + 1)));
            assert(out@.map_values(seg_view_fn()) =~= seg_split(s)) by {
                assert(forall|i: int|
                    0 <= i < rest@.len() ==> #[trigger] out@[i + 1] == rest@[i]);
            }
        }
        out
    }
}

/// Compare two runs.
fn runs_cmp(a: &RunPiece, b: &RunPiece) -> (r: Rel)
    requires
        wf_piece(*a),
        wf_piece(*b),
    ensures
        r == run_cmp(run_view(*a), run_view(*b)),
{
    if a.digits && b.digits {
        cmp_digit_seqs(&a.chars, &b.chars)
    } else if !a.digits && !b.digits {
        cmp_char_seqs(&a.chars, &b.chars)
    } else if !a.digits {
        Rel::Less
    } else {
        Rel::Greater
    }
}

/// Compare two run sequences lexicographically.
fn runs_vec_cmp(a: &Vec<RunPiece>, b: &Vec<RunPiece>) -> (r: Rel)
    requires
        forall|i: int| 0 <= i < a@.len() ==> wf_piece(#[trigger] a@[i]),
        forall|i: int| 0 <= i < b@.len() ==> wf_piece(#[trigger] b@[i]),
    ensures
        r == lex_cmp(a@.map_values(run_view_fn()), b@.map_values(run_view_fn()), run_cmp_fn()),
{
    let ghost va = a@.map_values(run_view_fn());
    let ghost vb = b@.map_values(run_view_fn());
    let n: usize = if a.len() < b.len() {
        a.len()
    } else {
        b.len()
    };
    let mut k: usize = 0;
    while k < n
        invariant
            n <= a@.len(),
            n <= b@.len(),
            n == if a@.len() < b@.len() {
                a@.len()
            } else {
                b@.len()
            },
            k <= n,
            va == a@.map_values(run_view_fn()),
            vb == b@.map_values(run_view_fn()),
            forall|i: int| 0 <= i < a@.len() ==> wf_piece(#[trigger] a@[i]),
            forall|i: int| 0 <= i < b@.len() ==> wf_piece(#[trigger] b@[i]),
            forall|j: int| 0 <= j < k ==> run_cmp(#[trigger] va[j], vb[j]) == Rel::Equal,
        decreases n - k,
    {
        let c: Rel = runs_cmp(&a[k], &b[k]);
        proof {
            assert(va[k as int] == run_view(a@[k as int]));
            assert(vb[k as int] == run_view(b@[k as int]));
        }
        match c {
            Rel::Equal => {
                k = k + 1;
            },
            Rel::Less => {
                proof {
                    assert forall|j: int| 0 <= j < k implies run_cmp_fn()(
                        #[trigger] va[j],
                        vb[j],
                    ) == Rel::Equal by {
                        assert(run_cmp(va[j], vb[j]) == Rel::Equal);
                    }
                    lemma_lex_cmp_skip(va, vb, run_cmp_fn(), k as int);
                    assert(va.skip(k as int)[0] == va[k as int]);
                    assert(vb.skip(k as int)[0] == vb[k as int]);
                }
                return Rel::Less;
            },
            Rel::Greater => {
                proof {
                    assert forall|j: int| 0 <= j < k implies run_cmp_fn()(
                        #[trigger] va[j],
                        vb[j],
                    ) == Rel::Equal by {
                        assert(run_cmp(va[j], vb[j]) == Rel::Equal);
                    }
                    lemma_lex_cmp_skip(va, vb, run_cmp_fn(), k as int);
                    assert(va.skip(k as int)[0] == va[k as int]);
                    assert(vb.skip(k as int)[0] == vb[k as int]);
                }
                return Rel::Greater;
            },
        }
    }
    proof {
        assert forall|j: int| 0 <= j < n implies run_cmp_fn()(#[trigger] va[j], vb[j])
            == Rel::Equal by {
            assert(run_cmp(va[j], vb[j]) == Rel::Equal);
        }
        lemma_lex_cmp_skip(va, vb, run_cmp_fn(), n as int);
    }
    if a.len() < b.len() {
        Rel::Less
    } else if a.len() > b.len() {
        Rel::Greater
    } else {
        Rel::Equal
    }
}

/// Compare two names, given as character vectors, in natural order.
fn natural_cmp_chars(a: &Vec<char>, b: &Vec<char>) -> (r: Rel)
    ensures
        r == name_cmp(a@, b@),
{
    proof {
        reveal(name_cmp);
    }
    let sa: Vec<Vec<char>> = split_from(a, 0);
    let sb: Vec<Vec<char>> = split_from(b, 0);
    proof {
        assert(a@.skip(0) =~= a@);
        assert(b@.skip(0) =~= b@);
    }
    let ghost ka = name_key(a@);
    let ghost kb = name_key(b@);
    let mut da: Vec<Vec<RunPiece>> = Vec::new();
    let mut i: usize = 0;
    while i < sa.len()
        invariant
            i <= sa@.len(),
            da@.len() == i,
            sa@.map_values(seg_view_fn()) == seg_split(a@),
            ka == name_key(a@),
            forall|j: int|
                0 <= j < i ==> #[trigger] da@[j]@.map_values(run_view_fn()) == ka[j],
            forall|j: int, l: int|
                0 <= j < i && 0 <= l < da@[j]@.len() ==> wf_piece(#[trigger] da@[j]@[l]),
        decreases sa@.len() - i,
    {
        let d: Vec<RunPiece> = decompose_from(&sa[i], 0);
        proof {
            assert(sa@[i as int]@.skip(0) =~= sa@[i as int]@);
            assert(seg_view_fn()(sa@[i as int]) == sa@[i as int]@);
            assert(ka[i as int] == decompose(seg_split(a@)[i as int]));
            assert(seg_split(a@)[i as int] == sa@[i as int]@);
        }
        da.push(d);
        i = i + 1;
    }
    let mut db: Vec<Vec<RunPiece>> = Vec::new();
    let mut i2: usize = 0;
    while i2 < sb.len()
        invariant
            i2 <= sb@.len(),
            db@.len() == i2,
            sb@.map_values(seg_view_fn()) == seg_split(b@),
            kb == name_key(b@),
            forall|j: int|
                0 <= j < i2 ==> #[trigger] db@[j]@.map_values(run_view_fn()) == kb[j],
            forall|j: int, l: int|
                0 <= j < i2 && 0 <= l < db@[j]@.len() ==> wf_piece(#[trigger] db@[j]@[l]),
        decreases sb@.len() - i2,
    {
        let d: Vec<RunPiece> = decompose_from(&sb[i2], 0);
        proof {
            assert(sb@[i2 as int]@.skip(0) =~= sb@[i2 as int]@);
            assert(seg_view_fn()(sb@[i2 as int]) == sb@[i2 as int]@);
            assert(kb[i2 as int] == decompose(seg_split(b@)[i2 as int]));
            assert(seg_split(b@)[i2 as int] == sb@[i2 as int]@);
        }
        db.push(d);
        i2 = i2 + 1;
    }
    proof {
        assert(ka.len() == da@.len());
        assert(kb.len() == db@.len());
    }
    let n: usize = if da.len() < db.len() {
        da.len()
    } else {
        db.len()
    };
    let mut k: usize = 0;
    while k < n
        invariant
            n <= da@.len(),
            n <= db@.len(),
            n == if da@.len() < db@.len() {
                da@.len()
            } else {
                db@.len()
            },
            k <= n,
            ka == name_key(a@),
            kb == name_key(b@),
            ka.len() == da@.len(),
            kb.len() == db@.len(),
            forall|j: int|
                0 <= j < da@.len() ==> #[trigger] da@[j]@.map_values(run_view_fn()) == ka[j],
            forall|j: int|
                0 <= j < db@.len() ==> #[trigger] db@[j]@.map_values(run_view_fn()) == kb[j],
            forall|j: int, l: int|
                0 <= j < da@.len() && 0 <= l < da@[j]@.len() ==> wf_piece(#[trigger] da@[j]@[l]),
            forall|j: int, l: int|
                0 <= j < db@.len() && 0 <= l < db@[j]@.len() ==> wf_piece(#[trigger] db@[j]@[l]),
            forall|j: int| 0 <= j < k ==> seg_cmp_fn()(#[trigger] ka[j], kb[j]) == Rel::Equal,
        decreases n - k,
    {
        let c: Rel = runs_vec_cmp(&da[k], &db[k]);
        proof {
            assert(da@[k as int]@.map_values(run_view_fn()) == ka[k as int]);
            assert(db@[k as int]@.map_values(run_view_fn()) == kb[k as int]);
        }
        match c {
            Rel::Equal => {
                k = k + 1;
            },
            Rel::Less => {
                proof {
                    reveal(name_cmp);
                    lemma_lex_cmp_skip(ka, kb, seg_cmp_fn(), k as int);
                    assert(ka.skip(k as int)[0] == ka[k as int]);
                    assert(kb.skip(k as int)[0] == kb[k as int]);
                }
                return Rel::Less;
            },
            Rel::Greater => {
                proof {
                    reveal(name_cmp);
                    lemma_lex_cmp_skip(ka, kb, seg_cmp_fn(), k as int);
                    assert(ka.skip(k as int)[0] == ka[k as int]);
                    assert(kb.skip(k as int)[0] == kb[k as int]);
                }
                return Rel::Greater;
            },
        }
    }
    proof {
        reveal(name_cmp);
        lemma_lex_cmp_skip(ka, kb, seg_cmp_fn(), n as int);
    }
    if da.len() < db.len() {
        Rel::Less
    } else if da.len() > db.len() {
        Rel::Greater
    } else {
        Rel::Equal
    }
}

/// Compare two trace names in natural order.
pub fn natural_cmp(a: &str, b: &str) -> (r: Rel)
    ensures
        r == name_cmp(a@, b@),
{
    let va: Vec<char> = chars_vec(a);
    let vb: Vec<char> = chars_vec(b);
    natural_cmp_chars(&va, &vb)
}

/// Either a run of non-numerical text or a run of decimal digits.
///
/// A digit run keeps its digits as written: runs compare by numeric value,
/// and the value of a long run needs no bound here.
pub enum TextOrNumber {
    /// Non-numerical text.
    Text(String),
    /// A run of decimal digits.
    Number(String),
}

impl View for TextOrNumber {
    type V = SpecRun;

    open spec fn view(&self) -> SpecRun {
        match self {
            TextOrNumber::Text(s) => SpecRun::Text(s@),
            TextOrNumber::Number(s) => SpecRun::Number(digits_val(s@)),
        }
    }
}

/// Decompose a string into a sequence of decimal numbers and
/// non-numerical text, one maximal run at a time.
pub struct TextAndNumbers {
    chars: Vec<char>,
    pos: usize,
}

impl TextAndNumbers {
    /// The scanner's position never passes the end of its source.
    pub closed spec fn wf(&self) -> bool {
        self.pos <= self.chars@.len()
    }

    /// The characters not yet scanned.
    pub closed spec fn remaining(&self) -> Seq<char> {
        self.chars@.skip(self.pos as int)
    }

    /// Start decomposing the source string.
    pub fn new(source: &str) -> (r: TextAndNumbers)
        ensures
            r.wf(),
            r.remaining() == source@,
    {
        let chars: Vec<char> = chars_vec(source);
        let r = TextAndNumbers { chars, pos: 0 };
        proof {
            assert(r.remaining() =~= source@);
        }
        r
    }

    /// The next maximal run, or `None` once the source is exhausted.
    pub fn next(&mut self) -> (r: Option<TextOrNumber>)
        requires
            old(self).wf(),
        ensures
            final(self).wf(),
            old(self).remaining().len() == 0 ==> r is None && final(self).remaining()
                == old(self).remaining(),
            old(self).remaining().len() > 0 ==> r is Some && r.unwrap()@ == decompose(
                old(self).remaining(),
            )[0] && decompose(final(self).remaining()) == decompose(
                old(self).remaining(),
            ).drop_first(),
    {
        let ghost s = self.remaining();
        if self.pos >= self.chars.len() {
            return None;
        }
        let j: usize = scan_run_end(&self.chars, self.pos);
        let piece_chars: Vec<char> = copy_range(&self.chars, self.pos, j);
        let digits: bool = is_digit(self.chars[self.pos]);
        let text: String = string_from_chars(&piece_chars);
        self.pos = j;
        proof {
            let n = run_len(s);
            lemma_run_len_bounds(s);
            lemma_run_len_spec(s);
            assert(forall|i: int|
                0 <= i < s.len() ==> #[trigger] s[i] == old(self).chars@[old(self).pos + i]);
            assert(text@ =~= s.take(n));
            assert(final(self).remaining() =~= s.skip(n));
            assert(decompose(s) == seq![mk_run(s.take(n))] + decompose(s.skip(n)));
            assert(decompose(s).drop_first() =~= decompose(s.skip(n)));
            assert(s.take(n)[0] == s[0]);
            if digits {
                assert(mk_run(s.take(n)) == SpecRun::Number(digits_val(text@)));
            } else {
                assert(mk_run(s.take(n)) == SpecRun::Text(text@));
            }
        }
        if digits {
            Some(TextOrNumber::Number(text))
        } else {
            Some(TextOrNumber::Text(text))
        }
    }
}

} // verus!
