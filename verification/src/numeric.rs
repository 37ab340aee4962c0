//! Numeric mutation: for each maximal digit run of a token, parsed as a
//! non-negative integer `v`, produce neighbouring variants with the run
//! replaced by `v + i` (and `v - i` while that stays non-negative) for
//! `i` up to the configured magnitude. Runs are mutated independently, one
//! run at a time, holding all other runs fixed. Replacing a run by the
//! decimal form of the new value drops leading zeros; that lossy formatting
//! is deliberate and kept.

use vstd::prelude::*;
use vstd::string::*;
use crate::strutil::{
    is_digit, char_is_digit, push_char, run_len_at, is_run_start, run_at, lemma_run_len_at_props,
    lemma_run_len_at_exact,
};
use crate::tokenset::{view_set, distinct_views, set_insert};

verus! {

/// A digit run, parsed as a signed 32-bit integer, was too large. Mirrors
/// the loader's fatal treatment of oversized digit runs.
#[derive(Clone, Copy, PartialEq, Eq, Structural, Debug)]
pub struct NumericOverflowError;

/// The digit-run character class, as a predicate value for the generic
/// run-scanning machinery.
pub open spec fn digit_p() -> spec_fn(char) -> bool {
    |c: char| is_digit(c)
}

/// The numeric value of a decimal digit character.
pub open spec fn digit_val(c: char) -> int {
    c as u32 - 48
}

/// The non-negative integer denoted by a sequence of decimal digits,
/// most-significant first. Leading zeros are allowed and carry no value.
pub open spec fn digits_val(s: Seq<char>) -> int
    decreases s.len(),
{
    if s.len() == 0 {
        0
    } else {
        digits_val(s.drop_last()) * 10 + digit_val(s.last())
    }
}

/// The digit character for a value below ten.
pub open spec fn digit_char(d: int) -> char {
    if d == 0 {
        '0'
    } else if d == 1 {
        '1'
    } else if d == 2 {
        '2'
    } else if d == 3 {
        '3'
    } else if d == 4 {
        '4'
    } else if d == 5 {
        '5'
    } else if d == 6 {
        '6'
    } else if d == 7 {
        '7'
    } else if d == 8 {
        '8'
    } else {
        '9'
    }
}

/// The decimal representation of a non-negative integer, without leading
/// zeros (a single `'0'` for zero).
pub open spec fn dec_chars(v: int) -> Seq<char>
    decreases v,
{
    if v < 10 {
        seq![digit_char(v)]
    } else {
        dec_chars(v / 10).push(digit_char(v % 10))
    }
}

/// The value of the maximal digit run starting at index `i` of `s`.
pub open spec fn run_value(s: Seq<char>, i: int) -> int {
    digits_val(run_at(s, i, digit_p()))
}

/// `s` with the maximal digit run starting at `i` replaced by the decimal
/// form of `v2`.
pub open spec fn variant_at(s: Seq<char>, i: int, v2: int) -> Seq<char> {
    s.subrange(0, i) + dec_chars(v2) + s.subrange(i + run_len_at(s, i, digit_p()), s.len() as int)
}

/// The variant of `s` whose run at `i` is incremented by `k`.
pub open spec fn inc_variant(s: Seq<char>, i: int, k: int) -> Seq<char> {
    variant_at(s, i, run_value(s, i) + k)
}

/// The variant of `s` whose run at `i` is decremented by `k`.
pub open spec fn dec_variant(s: Seq<char>, i: int, k: int) -> Seq<char> {
    variant_at(s, i, run_value(s, i) - k)
}

/// The variants contributed by the digit run at `i` for magnitudes one
/// through `n`: the run replaced by its value plus the magnitude, and by its
/// value minus the magnitude while that stays non-negative.
pub open spec fn run_variants(s: Seq<char>, i: int, n: int) -> Set<Seq<char>>
    decreases n,
{
    if n < 1 {
        Set::empty()
    } else {
        let with_inc = run_variants(s, i, n - 1).insert(inc_variant(s, i, n));
        if n <= run_value(s, i) {
            with_inc.insert(dec_variant(s, i, n))
        } else {
            with_inc
        }
    }
}

/// All numeric-mutation variants of `s` for magnitude `n`: the union of the
/// contributions of every maximal digit run.
pub open spec fn variants(s: Seq<char>, n: int) -> Set<Seq<char>> {
    Set::new(
        |w: Seq<char>|
            exists|i: int| is_run_start(s, i, digit_p()) && run_variants(s, i, n).contains(w),
    )
}

/// Some maximal digit run of `s` denotes a value outside the 32-bit signed
/// range; mutation of `s` fails.
pub open spec fn has_big_run(s: Seq<char>) -> bool {
    exists|i: int| is_run_start(s, i, digit_p()) && run_value(s, i) > i32::MAX
}

/// The value of a digit sequence is non-negative.
pub proof fn lemma_digits_val_nonneg(s: Seq<char>)
    requires
        forall|t: int| 0 <= t < s.len() ==> is_digit(s[t]),
    ensures
        digits_val(s) >= 0,
    decreases s.len(),
{
    if s.len() > 0 {
        lemma_digits_val_nonneg(s.drop_last());
    }
}

/// Extending a digit sequence cannot shrink its value.
proof fn lemma_digits_val_prefix_le(s: Seq<char>, j: int)
    requires
        forall|t: int| 0 <= t < s.len() ==> is_digit(s[t]),
        0 <= j <= s.len(),
    ensures
        digits_val(s.subrange(0, j)) <= digits_val(s),
    decreases s.len() - j,
{
    if j < s.len() {
        let pre = s.subrange(0, j);
        let post = s.subrange(0, j + 1);
        assert(post.drop_last() =~= pre);
        lemma_digits_val_nonneg(pre);
        assert(digits_val(post) == digits_val(pre) * 10 + digit_val(post.last()));
        assert(is_digit(s[j]));
        lemma_digits_val_prefix_le(s, j + 1);
    } else {
        assert(s.subrange(0, j) =~= s);
    }
}

/// Finds every maximal digit run of `s`, as pairs of start index and length
/// in characters.
pub fn find_digit_runs(s: &str) -> (runs: Vec<(usize, usize)>)
    ensures
        forall|m: int|
            0 <= m < runs@.len() ==> is_run_start(s@, #[trigger] runs@[m].0 as int, digit_p())
                && runs@[m].1 == run_len_at(s@, runs@[m].0 as int, digit_p()),
        forall|i: int|
            #[trigger] is_run_start(s@, i, digit_p()) ==> exists|m: int|
                0 <= m < runs@.len() && #[trigger] runs@[m].0 == i,
{
    let n: usize = s.unicode_len();
    let mut runs: Vec<(usize, usize)> = Vec::new();
    let mut i: usize = 0;
    while i < n
        invariant
            n == s@.len(),
            i <= n,
            forall|m: int|
                0 <= m < runs@.len() ==> is_run_start(s@, #[trigger] runs@[m].0 as int, digit_p())
                    && runs@[m].1 == run_len_at(s@, runs@[m].0 as int, digit_p()),
            forall|t: int|
                #[trigger] is_run_start(s@, t, digit_p()) && t < i ==> exists|m: int|
                    0 <= m < runs@.len() && #[trigger] runs@[m].0 == t,
        decreases n - i,
    {
        let c = s.get_char(i);
        let prev_digit = if i == 0 {
            false
        } else {
            char_is_digit(s.get_char(i - 1))
        };
        if char_is_digit(c) && !prev_digit {
            let mut j: usize = i + 1;
            while j < n && char_is_digit(s.get_char(j))
                invariant
                    n == s@.len(),
                    i < j <= n,
                    forall|t: int| i <= t < j ==> is_digit(s@[t]),
                decreases n - j,
            {
                j = j + 1;
            }
            proof {
                let p = digit_p();
                assert forall|t: int| i <= t < j implies p(s@[t]) by {
                    assert(is_digit(s@[t]));
                }
                if j < n {
                    assert(!p(s@[j as int]));
                }
                lemma_run_len_at_exact(s@, digit_p(), i as int, j as int);
            }
            let ghost old_runs = runs@;
            let rl: usize = j - i;
            runs.push((i, rl));
            proof {
                assert(runs@ == old_runs.push((i, rl)));
                assert(is_run_start(s@, i as int, digit_p()));
                assert forall|t: int| #[trigger] is_run_start(s@, t, digit_p()) && t < j implies
                    exists|m: int| 0 <= m < runs@.len() && #[trigger] runs@[m].0 == t by {
                    if t < i {
                        let m = choose|m: int| 0 <= m < old_runs.len() && old_runs[m].0 == t;
                        assert(runs@[m].0 == t);
                    } else if t == i {
                        assert(runs@[runs@.len() - 1].0 == t);
                    } else {
                        assert(is_digit(s@[t - 1]));
                        assert(false);
                    }
                }
            }
            i = j;
        } else {
            proof {
                assert(!is_run_start(s@, i as int, digit_p()));
            }
            i = i + 1;
        }
    }
    runs
}

/// Parses the digit run of `s` spanning `[start, start + rlen)` as a
/// non-negative integer, failing exactly when the value exceeds `i32::MAX`.
pub fn parse_run(s: &str, start: usize, rlen: usize) -> (res: Result<u64, NumericOverflowError>)
    requires
        start + rlen <= s@.len(),
        forall|t: int| start <= t < start + rlen ==> is_digit(s@[t]),
    ensures
        res is Ok <==> digits_val(s@.subrange(start as int, start + rlen)) <= i32::MAX,
        res matches Ok(v) ==> v as int == digits_val(s@.subrange(start as int, start + rlen)),
{
    let ghost run = s@.subrange(start as int, start + rlen);
    proof {
        assert forall|t: int| 0 <= t < run.len() implies is_digit(run[t]) by {
            assert(run[t] == s@[start + t]);
        }
    }
    // The character length fits in usize, so the addition below cannot
    // overflow.
    let n: usize = s.unicode_len();
    let end: usize = start + rlen;
    let mut acc: u64 = 0;
    let mut t: usize = start;
    while t < end
        invariant
            end == start + rlen,
            start + rlen <= s@.len(),
            forall|tt: int| start <= tt < start + rlen ==> is_digit(s@[tt]),
            forall|tt: int| 0 <= tt < run.len() ==> is_digit(run[tt]),
            run == s@.subrange(start as int, start + rlen),
            start <= t <= start + rlen,
            acc <= i32::MAX,
            acc as int == digits_val(run.subrange(0, t - start)),
        decreases start + rlen - t,
    {
        let c = s.get_char(t);
        proof {
            assert(is_digit(s@[t as int]));
        }
        let d: u32 = (c as u32) - 48;
        let acc2: u64 = acc * 10 + (d as u64);
        proof {
            let pre = run.subrange(0, t - start);
            let post = run.subrange(0, t + 1 - start);
            assert(post.drop_last() =~= pre);
            assert(post.last() == run[t - start]);
            assert(run[t - start] == s@[t as int]);
            assert(acc2 as int == digits_val(post));
        }
        if acc2 > (i32::MAX as u64) {
            proof {
                lemma_digits_val_prefix_le(run, t + 1 - start);
            }
            return Err(NumericOverflowError);
        }
        acc = acc2;
        t = t + 1;
    }
    proof {
        assert(run.subrange(0, rlen as int) =~= run);
    }
    Ok(acc)
}

fn digit_char_exec(d: u64) -> (c: char)
    requires
        d < 10,
    ensures
        c == digit_char(d as int),
{
    if d == 0 {
        '0'
    } else if d == 1 {
        '1'
    } else if d == 2 {
        '2'
    } else if d == 3 {
        '3'
    } else if d == 4 {
        '4'
    } else if d == 5 {
        '5'
    } else if d == 6 {
        '6'
    } else if d == 7 {
        '7'
    } else if d == 8 {
        '8'
    } else {
        '9'
    }
}

/// Formats a non-negative integer in decimal, without leading zeros.
pub fn dec_string(v: u64) -> (r: String)
    ensures
        r@ == dec_chars(v as int),
    decreases v,
{
    if v < 10 {
        let mut r = String::new();
        push_char(&mut r, digit_char_exec(v));
        proof {
            assert(r@ =~= seq![digit_char(v as int)]);
        }
        r
    } else {
        let mut r = dec_string(v / 10);
        push_char(&mut r, digit_char_exec(v % 10));
        r
    }
}

/// Builds the variant of `s` whose digit run at `start` (of length `rlen`)
/// is replaced by the decimal form of `v2`.
fn variant_string(s: &str, start: usize, rlen: usize, v2: u64) -> (r: String)
    requires
        start + rlen <= s@.len(),
        rlen == run_len_at(s@, start as int, digit_p()),
    ensures
        r@ == variant_at(s@, start as int, v2 as int),
{
    let n: usize = s.unicode_len();
    let mut r = String::from_str(s.substring_char(0, start));
    let mid = dec_string(v2);
    r.append(mid.as_str());
    r.append(s.substring_char(start + rlen, n));
    r
}

/// The union of the variant contributions of the first `m` entries of
/// `runs`.
spec fn prefix_variants(s: Seq<char>, runs: Seq<(usize, usize)>, m: int, n: int) -> Set<Seq<char>> {
    Set::new(
        |w: Seq<char>|
            exists|mm: int| 0 <= mm < m && #[trigger] run_variants(s, runs[mm].0 as int, n).contains(w),
    )
}

proof fn lemma_prefix_variants_zero(s: Seq<char>, runs: Seq<(usize, usize)>, n: int, b: Set<Seq<char>>)
    ensures
        b.union(prefix_variants(s, runs, 0, n)) == b,
{
    assert(b.union(prefix_variants(s, runs, 0, n)) =~= b);
}

proof fn lemma_prefix_variants_step(s: Seq<char>, runs: Seq<(usize, usize)>, m: int, n: int)
    requires
        0 <= m < runs.len(),
    ensures
        prefix_variants(s, runs, m + 1, n) == prefix_variants(s, runs, m, n).union(
            run_variants(s, runs[m].0 as int, n),
        ),
{
    assert forall|w: Seq<char>| prefix_variants(s, runs, m + 1, n).contains(w) implies
        prefix_variants(s, runs, m, n).union(run_variants(s, runs[m].0 as int, n)).contains(w) by {
        let mm = choose|mm: int|
            0 <= mm < m + 1 && #[trigger] run_variants(s, runs[mm].0 as int, n).contains(w);
        if mm < m {
            assert(prefix_variants(s, runs, m, n).contains(w));
        }
    }
    assert forall|w: Seq<char>|
        prefix_variants(s, runs, m, n).union(run_variants(s, runs[m].0 as int, n)).contains(w)
        implies prefix_variants(s, runs, m + 1, n).contains(w) by {
        if prefix_variants(s, runs, m, n).contains(w) {
            let mm = choose|mm: int|
                0 <= mm < m && #[trigger] run_variants(s, runs[mm].0 as int, n).contains(w);
            assert(0 <= mm < m + 1 && run_variants(s, runs[mm].0 as int, n).contains(w));
        } else {
            assert(0 <= m < m + 1 && run_variants(s, runs[m].0 as int, n).contains(w));
        }
    }
    assert(prefix_variants(s, runs, m + 1, n) =~= prefix_variants(s, runs, m, n).union(
        run_variants(s, runs[m].0 as int, n),
    ));
}

proof fn lemma_prefix_variants_sub(s: Seq<char>, runs: Seq<(usize, usize)>, m: int, n: int)
    requires
        0 <= m <= runs.len(),
        forall|mm: int|
            0 <= mm < runs.len() ==> is_run_start(s, #[trigger] runs[mm].0 as int, digit_p()),
    ensures
        prefix_variants(s, runs, m, n).subset_of(variants(s, n)),
{
    assert forall|w: Seq<char>| prefix_variants(s, runs, m, n).contains(w) implies variants(
        s,
        n,
    ).contains(w) by {
        let mm = choose|mm: int|
            0 <= mm < m && #[trigger] run_variants(s, runs[mm].0 as int, n).contains(w);
        assert(is_run_start(s, runs[mm].0 as int, digit_p()));
    }
}

proof fn lemma_prefix_variants_full(s: Seq<char>, runs: Seq<(usize, usize)>, n: int)
    requires
        forall|mm: int|
            0 <= mm < runs.len() ==> is_run_start(s, #[trigger] runs[mm].0 as int, digit_p()),
        forall|i: int|
            #[trigger] is_run_start(s, i, digit_p()) ==> exists|mm: int|
                0 <= mm < runs.len() && #[trigger] runs[mm].0 == i,
    ensures
        prefix_variants(s, runs, runs.len() as int, n) == variants(s, n),
{
    lemma_prefix_variants_sub(s, runs, runs.len() as int, n);
    assert forall|w: Seq<char>| variants(s, n).contains(w) implies prefix_variants(
        s,
        runs,
        runs.len() as int,
        n,
    ).contains(w) by {
        let i = choose|i: int| is_run_start(s, i, digit_p()) && run_variants(s, i, n).contains(w);
        let mm = choose|mm: int| 0 <= mm < runs.len() && #[trigger] runs[mm].0 == i;
        assert(run_variants(s, runs[mm].0 as int, n).contains(w));
    }
    assert(prefix_variants(s, runs, runs.len() as int, n) =~= variants(s, n));
}

/// For each maximal digit run of `permutation`, parsed as value `v`, inserts
/// into `permutations` the variants with that run replaced by `v + i`, and by
/// `v - i` while non-negative, for `i` from one up to `permutator_number`.
/// Fails, possibly after some insertions, exactly when a digit run exceeds
/// `i32::MAX`.
pub fn permutator_numbers(
    permutations: &mut Vec<String>,
    permutation: &str,
    permutator_number: i32,
) -> (res: Result<(), NumericOverflowError>)
    ensures
        distinct_views(old(permutations)@) ==> distinct_views(final(permutations)@),
        res is Err <==> has_big_run(permutation@),
        res is Ok ==> view_set(final(permutations)@) == view_set(old(permutations)@).union(
            variants(permutation@, permutator_number as int),
        ),
        view_set(old(permutations)@).subset_of(view_set(final(permutations)@)),
        view_set(final(permutations)@).subset_of(
            view_set(old(permutations)@).union(variants(permutation@, permutator_number as int)),
        ),
{
    let ghost s = permutation@;
    let ghost base = view_set(old(permutations)@);
    let ghost n = permutator_number as int;
    let runs = find_digit_runs(permutation);
    proof {
        lemma_prefix_variants_zero(s, runs@, n, base);
    }
    let nruns = runs.len();
    let mut m: usize = 0;
    while m < nruns
        invariant
            nruns == runs@.len(),
            m <= nruns,
            s == permutation@,
            base == view_set(old(permutations)@),
            n == permutator_number as int,
            forall|mm: int|
                0 <= mm < runs@.len() ==> is_run_start(s, #[trigger] runs@[mm].0 as int, digit_p())
                    && runs@[mm].1 == run_len_at(s, runs@[mm].0 as int, digit_p()),
            forall|i: int|
                #[trigger] is_run_start(s, i, digit_p()) ==> exists|mm: int|
                    0 <= mm < runs@.len() && #[trigger] runs@[mm].0 == i,
            forall|mm: int| 0 <= mm < m ==> run_value(s, #[trigger] runs@[mm].0 as int) <= i32::MAX,
            view_set(permutations@) == base.union(prefix_variants(s, runs@, m as int, n)),
            distinct_views(old(permutations)@) ==> distinct_views(permutations@),
        decreases nruns - m,
    {
        let (start, rlen) = runs[m];
        proof {
            lemma_run_len_at_props(s, start as int, digit_p());
            let p = digit_p();
            assert forall|t: int| start <= t < start + rlen implies is_digit(s[t]) by {
                assert(p(s[t]));
            }
        }
        let v = match parse_run(permutation, start, rlen) {
            Ok(v) => v,
            Err(e) => {
                proof {
                    assert(run_at(s, start as int, digit_p()) =~= s.subrange(
                        start as int,
                        start + rlen,
                    ));
                    assert(is_run_start(s, start as int, digit_p()));
                    assert(has_big_run(s));
                    lemma_prefix_variants_sub(s, runs@, m as int, n);
                }
                return Err(e);
            },
        };
        proof {
            assert(run_at(s, start as int, digit_p()) =~= s.subrange(start as int, start + rlen));
            assert(v as int == run_value(s, start as int));
            lemma_digits_val_nonneg(s.subrange(start as int, start + rlen));
        }
        let ghost run_base = view_set(permutations@);
        let pn: i64 = permutator_number as i64;
        let mut k: i64 = 1;
        while k <= pn
            invariant
                nruns == runs@.len(),
                m < nruns,
                s == permutation@,
                n == permutator_number as int,
                pn == n,
                1 <= k,
                pn >= 1 ==> k <= pn + 1,
                pn < 1 ==> k == 1,
                start == runs@[m as int].0,
                rlen == runs@[m as int].1,
                start + rlen <= s.len(),
                rlen == run_len_at(s, start as int, digit_p()),
                0 <= v as int,
                v as int == run_value(s, start as int),
                v <= i32::MAX,
                view_set(permutations@) == run_base.union(run_variants(s, start as int, k - 1)),
                distinct_views(old(permutations)@) ==> distinct_views(permutations@),
            decreases pn + 1 - k,
        {
            let ghost i = start as int;
            let ghost kk0 = k as int;
            let w_inc = variant_string(permutation, start, rlen, v + (k as u64));
            proof {
                assert(w_inc@ == inc_variant(s, i, kk0));
            }
            set_insert(permutations, w_inc);
            if (k as u64) <= v {
                let w_dec = variant_string(permutation, start, rlen, v - (k as u64));
                proof {
                    assert(w_dec@ == dec_variant(s, i, kk0));
                }
                set_insert(permutations, w_dec);
                proof {
                    assert(run_variants(s, i, kk0) == run_variants(s, i, kk0 - 1).insert(
                        inc_variant(s, i, kk0),
                    ).insert(dec_variant(s, i, kk0)));
                    assert(view_set(permutations@) =~= run_base.union(run_variants(s, i, kk0)));
                }
            } else {
                proof {
                    assert(run_variants(s, i, kk0) == run_variants(s, i, kk0 - 1).insert(
                        inc_variant(s, i, kk0),
                    ));
                    assert(view_set(permutations@) =~= run_base.union(run_variants(s, i, kk0)));
                }
            }
            k = k + 1;
        }
        proof {
            let i = start as int;
            if n < 1 {
                assert(run_variants(s, i, k - 1) == run_variants(s, i, n));
            }
            assert(view_set(permutations@) == run_base.union(run_variants(s, i, n)));
            lemma_prefix_variants_step(s, runs@, m as int, n);
            assert(view_set(permutations@) =~= base.union(prefix_variants(s, runs@, m + 1, n)));
        }
        m = m + 1;
    }
    proof {
        lemma_prefix_variants_full(s, runs@, n);
        if has_big_run(s) {
            let i = choose|i: int| is_run_start(s, i, digit_p()) && run_value(s, i) > i32::MAX;
            let mm = choose|mm: int| 0 <= mm < runs@.len() && #[trigger] runs@[mm].0 == i;
            assert(run_value(s, runs@[mm].0 as int) <= i32::MAX);
            assert(false);
        }
        assert(view_set(permutations@).subset_of(base.union(variants(s, n))));
    }
    Ok(())
}

/// The increment variants of the run at `i` for magnitudes one through `n`.
pub open spec fn increment_variants(s: Seq<char>, i: int, n: int) -> Set<Seq<char>>
    decreases n,
{
    if n < 1 {
        Set::empty()
    } else {
        increment_variants(s, i, n - 1).insert(inc_variant(s, i, n))
    }
}

/// The decrement variants of the run at `i` for magnitudes one through `n`,
/// clipped before the run value would go negative.
pub open spec fn decrement_variants(s: Seq<char>, i: int, n: int) -> Set<Seq<char>>
    decreases n,
{
    if n < 1 {
        Set::empty()
    } else {
        let prev = decrement_variants(s, i, n - 1);
        if n <= run_value(s, i) {
            prev.insert(dec_variant(s, i, n))
        } else {
            prev
        }
    }
}

/// A run's variant contribution splits into its increment and decrement
/// sides.
proof fn lemma_run_variants_split(s: Seq<char>, i: int, n: int)
    ensures
        run_variants(s, i, n) == increment_variants(s, i, n).union(decrement_variants(s, i, n)),
    decreases n,
{
    if n < 1 {
        assert(run_variants(s, i, n) =~= increment_variants(s, i, n).union(
            decrement_variants(s, i, n),
        ));
    } else {
        lemma_run_variants_split(s, i, n - 1);
        assert(run_variants(s, i, n) =~= increment_variants(s, i, n).union(
            decrement_variants(s, i, n),
        ));
    }
}

/// The decimal form of a non-negative value consists of digits and denotes
/// that value back.
proof fn lemma_dec_chars_props(v: int)
    requires
        v >= 0,
    ensures
        digits_val(dec_chars(v)) == v,
        dec_chars(v).len() >= 1,
    decreases v,
{
    if v < 10 {
        assert(dec_chars(v) == seq![digit_char(v)]);
        assert(dec_chars(v).len() == 1);
        assert(dec_chars(v).drop_last() =~= Seq::<char>::empty());
        assert(dec_chars(v).last() == digit_char(v));
        assert(digits_val(dec_chars(v)) == digits_val(dec_chars(v).drop_last()) * 10 + digit_val(
            dec_chars(v).last(),
        ));
        assert(digits_val(dec_chars(v).drop_last()) == 0);
        assert(digit_val(digit_char(v)) == v);
    } else {
        lemma_dec_chars_props(v / 10);
        assert(dec_chars(v) == dec_chars(v / 10).push(digit_char(v % 10)));
        assert(dec_chars(v).len() >= 1);
        assert(dec_chars(v).drop_last() =~= dec_chars(v / 10));
        assert(dec_chars(v).last() == digit_char(v % 10));
        assert(digits_val(dec_chars(v)) == digits_val(dec_chars(v).drop_last()) * 10 + digit_val(
            dec_chars(v).last(),
        ));
        assert(digits_val(dec_chars(v).drop_last()) == v / 10);
        assert(digit_val(digit_char(v % 10)) == v % 10);
    }
}

/// Replacing one run by the decimal forms of two different non-negative
/// values yields two different strings.
proof fn lemma_variant_at_inj(s: Seq<char>, i: int, a: int, b: int)
    requires
        0 <= i,
        i + run_len_at(s, i, digit_p()) <= s.len(),
        a >= 0,
        b >= 0,
        a != b,
    ensures
        variant_at(s, i, a) != variant_at(s, i, b),
{
    lemma_dec_chars_props(a);
    lemma_dec_chars_props(b);
    let da = dec_chars(a);
    let db = dec_chars(b);
    let pre = s.subrange(0, i);
    let post = s.subrange(i + run_len_at(s, i, digit_p()), s.len() as int);
    if variant_at(s, i, a) == variant_at(s, i, b) {
        assert((pre + da + post).len() == (pre + db + post).len());
        assert(da.len() == db.len());
        assert forall|u: int| 0 <= u < da.len() implies da[u] == db[u] by {
            assert((pre + da + post)[i + u] == da[u]);
            assert((pre + db + post)[i + u] == db[u]);
        }
        assert(da =~= db);
        assert(false);
    }
}

proof fn lemma_increment_member(s: Seq<char>, i: int, n: int, w: Seq<char>) -> (k: int)
    requires
        increment_variants(s, i, n).contains(w),
    ensures
        1 <= k <= n,
        w == inc_variant(s, i, k),
    decreases n,
{
    if n < 1 {
        assert(false);
        0
    } else if increment_variants(s, i, n - 1).contains(w) {
        lemma_increment_member(s, i, n - 1, w)
    } else {
        n
    }
}

proof fn lemma_decrement_member(s: Seq<char>, i: int, n: int, w: Seq<char>) -> (k: int)
    requires
        decrement_variants(s, i, n).contains(w),
    ensures
        1 <= k <= n,
        k <= run_value(s, i),
        w == dec_variant(s, i, k),
    decreases n,
{
    if n < 1 {
        assert(false);
        0
    } else if decrement_variants(s, i, n - 1).contains(w) {
        lemma_decrement_member(s, i, n - 1, w)
    } else {
        n
    }
}

proof fn lemma_increment_count(s: Seq<char>, i: int, n: int)
    requires
        0 <= i,
        i + run_len_at(s, i, digit_p()) <= s.len(),
        run_value(s, i) >= 0,
        n >= 0,
    ensures
        increment_variants(s, i, n).finite(),
        increment_variants(s, i, n).len() == n,
    decreases n,
{
    if n == 0 {
    } else {
        lemma_increment_count(s, i, n - 1);
        if increment_variants(s, i, n - 1).contains(inc_variant(s, i, n)) {
            let k = lemma_increment_member(s, i, n - 1, inc_variant(s, i, n));
            lemma_variant_at_inj(s, i, run_value(s, i) + n, run_value(s, i) + k);
            assert(false);
        }
    }
}

proof fn lemma_decrement_count(s: Seq<char>, i: int, n: int)
    requires
        0 <= i,
        i + run_len_at(s, i, digit_p()) <= s.len(),
        0 <= n <= run_value(s, i),
    ensures
        decrement_variants(s, i, n).finite(),
        decrement_variants(s, i, n).len() == n,
    decreases n,
{
    if n == 0 {
    } else {
        lemma_decrement_count(s, i, n - 1);
        if decrement_variants(s, i, n - 1).contains(dec_variant(s, i, n)) {
            let k = lemma_decrement_member(s, i, n - 1, dec_variant(s, i, n));
            lemma_variant_at_inj(s, i, run_value(s, i) - n, run_value(s, i) - k);
            assert(false);
        }
    }
}

proof fn lemma_inc_dec_disjoint(s: Seq<char>, i: int, n: int, m: int)
    requires
        0 <= i,
        i + run_len_at(s, i, digit_p()) <= s.len(),
        run_value(s, i) >= 0,
    ensures
        increment_variants(s, i, n).disjoint(decrement_variants(s, i, m)),
{
    assert forall|w: Seq<char>| increment_variants(s, i, n).contains(w) implies !decrement_variants(
        s,
        i,
        m,
    ).contains(w) by {
        let k = lemma_increment_member(s, i, n, w);
        if decrement_variants(s, i, m).contains(w) {
            let kk = lemma_decrement_member(s, i, m, w);
            lemma_variant_at_inj(s, i, run_value(s, i) + k, run_value(s, i) - kk);
            assert(false);
        }
    }
}

/// For a token with a single maximal digit run of value `v`, and a
/// magnitude `n` with `1 <= n <= v` — so that no decrement is clipped at
/// zero and `min(n, v + 1)` equals `n` — numeric mutation yields exactly
/// `n` increment variants and exactly `n` decrement variants, all mutually
/// distinct: `2 n` variants in all. (For a magnitude beyond the run value
/// the decrement side stops before going negative and is smaller.)
pub proof fn lemma_single_run_variant_counts(s: Seq<char>, i: int, n: int)
    requires
        is_run_start(s, i, digit_p()),
        forall|t: int| #[trigger] is_run_start(s, t, digit_p()) ==> t == i,
        1 <= n <= run_value(s, i),
    ensures
        variants(s, n) == increment_variants(s, i, n).union(decrement_variants(s, i, n)),
        increment_variants(s, i, n).len() == n,
        decrement_variants(s, i, n).len() == n,
        increment_variants(s, i, n).disjoint(decrement_variants(s, i, n)),
        variants(s, n).finite(),
        variants(s, n).len() == 2 * n,
{
    lemma_run_len_at_props(s, i, digit_p());
    lemma_run_variants_split(s, i, n);
    assert(variants(s, n) =~= run_variants(s, i, n)) by {
        assert forall|w: Seq<char>| variants(s, n).contains(w) implies run_variants(
            s,
            i,
            n,
        ).contains(w) by {
            let t = choose|t: int|
                is_run_start(s, t, digit_p()) && run_variants(s, t, n).contains(w);
            assert(t == i);
        }
        assert forall|w: Seq<char>| run_variants(s, i, n).contains(w) implies variants(
            s,
            n,
        ).contains(w) by {
            assert(is_run_start(s, i, digit_p()) && run_variants(s, i, n).contains(w));
        }
    }
    lemma_increment_count(s, i, n);
    lemma_decrement_count(s, i, n);
    lemma_inc_dec_disjoint(s, i, n, n);
    vstd::set_lib::lemma_set_disjoint_lens(
        increment_variants(s, i, n),
        decrement_variants(s, i, n),
    );
    assert(increment_variants(s, i, n) + decrement_variants(s, i, n) == increment_variants(
        s,
        i,
        n,
    ).union(decrement_variants(s, i, n)));
}

} // verus!
