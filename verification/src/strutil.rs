//! String helpers shared by the wordlist loader, the join selector and the
//! permutation engine: digit tests, digit stripping, dot counting and label
//! extraction, all specified over `Seq<char>` views.

use vstd::prelude::*;
use vstd::string::*;

verus! {

/// A decimal digit, the only character class the heuristics care about.
pub open spec fn is_digit(c: char) -> bool {
    '0' <= c && c <= '9'
}

/// Executable digit test, equivalent to the spec-level `is_digit`.
pub fn char_is_digit(c: char) -> (b: bool)
    ensures
        b == is_digit(c),
{
    c >= '0' && c <= '9'
}

/// `s` with every decimal digit removed, other characters kept in order.
pub open spec fn strip_digits(s: Seq<char>) -> Seq<char>
    decreases s.len(),
{
    if s.len() == 0 {
        Seq::empty()
    } else if is_digit(s.last()) {
        strip_digits(s.drop_last())
    } else {
        strip_digits(s.drop_last()).push(s.last())
    }
}

/// Removes every decimal digit from `s`, keeping the remaining characters in
/// order.
pub fn strip_digits_str(s: &str) -> (r: String)
    ensures
        r@ == strip_digits(s@),
{
    let n: usize = s.unicode_len();
    let mut r = String::new();
    let mut i: usize = 0;
    while i < n
        invariant
            n == s@.len(),
            i <= n,
            r@ == strip_digits(s@.subrange(0, i as int)),
        decreases n - i,
    {
        let c = s.get_char(i);
        if !char_is_digit(c) {
            push_char(&mut r, c);
        }
        proof {
            let pre = s@.subrange(0, i as int);
            let post = s@.subrange(0, i + 1 as int);
            assert(post.drop_last() =~= pre);
            assert(post.last() == s@[i as int]);
        }
        i = i + 1;
    }
    proof {
        assert(s@.subrange(0, n as int) =~= s@);
    }
    r
}

/// Relies on `String::push` from std: appends the given character to the end
/// of the string.
#[verifier::external_body]
pub fn push_char(s: &mut String, c: char)
    ensures
        final(s)@ == old(s)@.push(c),
{
    s.push(c);
}

/// How many times `c` occurs in `s`. A domain made of `n` dot-separated
/// labels contains exactly `n - 1` dots, so label counts are stated through
/// this function.
pub open spec fn count_char(s: Seq<char>, c: char) -> nat
    decreases s.len(),
{
    if s.len() == 0 {
        0
    } else {
        count_char(s.drop_last(), c) + (if s.last() == c {
            1nat
        } else {
            0nat
        })
    }
}

/// The number of dot-separated labels of `s`: one more than its dot count
/// (splitting the empty string still yields one empty label).
pub open spec fn label_count(s: Seq<char>) -> nat {
    count_char(s, '.') + 1
}

/// Counts the occurrences of `c` in `s`.
pub fn count_char_str(s: &str, c: char) -> (r: usize)
    ensures
        r == count_char(s@, c),
{
    let n: usize = s.unicode_len();
    let mut r: usize = 0;
    let mut i: usize = 0;
    while i < n
        invariant
            n == s@.len(),
            i <= n,
            r == count_char(s@.subrange(0, i as int), c),
            r <= i,
        decreases n - i,
    {
        if s.get_char(i) == c {
            r = r + 1;
        }
        proof {
            let post = s@.subrange(0, i + 1 as int);
            assert(post.drop_last() =~= s@.subrange(0, i as int));
            assert(post.last() == s@[i as int]);
        }
        i = i + 1;
    }
    proof {
        assert(s@.subrange(0, n as int) =~= s@);
    }
    r
}

/// The index of the first occurrence of `c` in `s`, or `s.len()` if `c` does
/// not occur.
pub open spec fn first_index_of(s: Seq<char>, c: char) -> nat
    decreases s.len(),
{
    if s.len() == 0 {
        0
    } else if s[0] == c {
        0
    } else {
        1 + first_index_of(s.drop_first(), c)
    }
}

/// `first_index_of` is the least index holding `c`: everything before it is
/// not `c`, and the index itself holds `c` whenever it is in range.
pub proof fn lemma_first_index_of(s: Seq<char>, c: char)
    ensures
        first_index_of(s, c) <= s.len(),
        forall|j: int| 0 <= j < first_index_of(s, c) ==> s[j] != c,
        first_index_of(s, c) < s.len() ==> s[first_index_of(s, c) as int] == c,
    decreases s.len(),
{
    if s.len() > 0 && s[0] != c {
        lemma_first_index_of(s.drop_first(), c);
        assert forall|j: int| 0 <= j < first_index_of(s, c) implies s[j] != c by {
            if j > 0 {
                assert(s.drop_first()[j - 1] == s[j]);
            }
        }
        if first_index_of(s, c) < s.len() {
            assert(s.drop_first()[first_index_of(s.drop_first(), c) as int]
                == s[first_index_of(s, c) as int]);
        }
    }
}

/// Finds the index of the first occurrence of `c` in `s`, or returns the
/// character length of `s` if there is none.
pub fn first_index_of_str(s: &str, c: char) -> (r: usize)
    ensures
        r == first_index_of(s@, c),
{
    let n: usize = s.unicode_len();
    let mut i: usize = 0;
    while i < n
        invariant
            n == s@.len(),
            i <= n,
            forall|j: int| 0 <= j < i ==> s@[j] != c,
        decreases n - i,
    {
        if s.get_char(i) == c {
            proof {
                lemma_first_index_lower(s@, c, i as int);
            }
            return i;
        }
        i = i + 1;
    }
    proof {
        lemma_first_index_none(s@, c);
    }
    n
}

proof fn lemma_first_index_lower(s: Seq<char>, c: char, i: int)
    requires
        0 <= i < s.len(),
        s[i] == c,
        forall|j: int| 0 <= j < i ==> s[j] != c,
    ensures
        first_index_of(s, c) == i,
    decreases s.len(),
{
    if i > 0 {
        assert forall|j: int| 0 <= j < i - 1 implies s.drop_first()[j] != c by {
            assert(s.drop_first()[j] == s[j + 1]);
        }
        assert(s.drop_first()[i - 1] == s[i]);
        lemma_first_index_lower(s.drop_first(), c, i - 1);
    }
}

proof fn lemma_first_index_none(s: Seq<char>, c: char)
    requires
        forall|j: int| 0 <= j < s.len() ==> s[j] != c,
    ensures
        first_index_of(s, c) == s.len(),
    decreases s.len(),
{
    if s.len() > 0 {
        assert forall|j: int| 0 <= j < s.drop_first().len() implies s.drop_first()[j] != c by {
            assert(s.drop_first()[j] == s[j + 1]);
        }
        lemma_first_index_none(s.drop_first(), c);
    }
}

/// The first dot-separated label of `s`: its prefix up to (excluding) the
/// first dot, or all of `s` if it has no dot.
pub open spec fn first_label(s: Seq<char>) -> Seq<char> {
    s.subrange(0, first_index_of(s, '.') as int)
}

/// Everything after the first dot of `s` (the remaining labels joined by
/// dots), or empty if `s` has no dot.
pub open spec fn rest_after_first_label(s: Seq<char>) -> Seq<char> {
    if first_index_of(s, '.') < s.len() {
        s.subrange(first_index_of(s, '.') + 1int, s.len() as int)
    } else {
        Seq::empty()
    }
}

/// Returns the first dot-separated label of `s`.
pub fn first_label_str(s: &str) -> (r: &str)
    ensures
        r@ == first_label(s@),
{
    proof {
        lemma_first_index_of(s@, '.');
    }
    let d = first_index_of_str(s, '.');
    s.substring_char(0, d)
}

/// Returns everything after the first dot of `s`, or the empty string if `s`
/// has no dot.
pub fn rest_after_first_label_str(s: &str) -> (r: &str)
    ensures
        r@ == rest_after_first_label(s@),
{
    proof {
        lemma_first_index_of(s@, '.');
    }
    let n: usize = s.unicode_len();
    let d = first_index_of_str(s, '.');
    if d < n {
        s.substring_char(d + 1, n)
    } else {
        proof {
            assert(s@.subrange(n as int, n as int) =~= Seq::<char>::empty());
        }
        s.substring_char(n, n)
    }
}

/// Character-for-character string equality, equivalent to equality of views.
pub fn str_eq(a: &str, b: &str) -> (r: bool)
    ensures
        r == (a@ == b@),
{
    let na: usize = a.unicode_len();
    let nb: usize = b.unicode_len();
    if na != nb {
        return false;
    }
    let mut i: usize = 0;
    while i < na
        invariant
            na == a@.len(),
            nb == b@.len(),
            na == nb,
            i <= na,
            forall|j: int| 0 <= j < i ==> a@[j] == b@[j],
        decreases na - i,
    {
        if a.get_char(i) != b.get_char(i) {
            return false;
        }
        i = i + 1;
    }
    proof {
        assert(a@ =~= b@);
    }
    true
}

/// `a` ends with `b`: `b` is a suffix of `a`.
pub open spec fn ends_with(a: Seq<char>, b: Seq<char>) -> bool {
    a.len() >= b.len() && a.subrange(a.len() - b.len(), a.len() as int) == b
}

/// `a` starts with `b`: `b` is a prefix of `a`.
pub open spec fn starts_with(a: Seq<char>, b: Seq<char>) -> bool {
    a.len() >= b.len() && a.subrange(0, b.len() as int) == b
}

/// Tests whether `b` is a suffix of `a`.
pub fn str_ends_with(a: &str, b: &str) -> (r: bool)
    ensures
        r == ends_with(a@, b@),
{
    let na: usize = a.unicode_len();
    let nb: usize = b.unicode_len();
    if na < nb {
        return false;
    }
    let suffix = a.substring_char(na - nb, na);
    str_eq(suffix, b)
}

/// Tests whether `b` is a prefix of `a`.
pub fn str_starts_with(a: &str, b: &str) -> (r: bool)
    ensures
        r == starts_with(a@, b@),
{
    let na: usize = a.unicode_len();
    let nb: usize = b.unicode_len();
    if na < nb {
        return false;
    }
    let prefix = a.substring_char(0, nb);
    str_eq(prefix, b)
}

/// `s` with every space character removed.
pub open spec fn remove_spaces(s: Seq<char>) -> Seq<char>
    decreases s.len(),
{
    if s.len() == 0 {
        Seq::empty()
    } else if s.last() == ' ' {
        remove_spaces(s.drop_last())
    } else {
        remove_spaces(s.drop_last()).push(s.last())
    }
}

/// Removes every space character from `s`, keeping the remaining characters
/// in order.
pub fn remove_spaces_str(s: &str) -> (r: String)
    ensures
        r@ == remove_spaces(s@),
{
    let n: usize = s.unicode_len();
    let mut r = String::new();
    let mut i: usize = 0;
    while i < n
        invariant
            n == s@.len(),
            i <= n,
            r@ == remove_spaces(s@.subrange(0, i as int)),
        decreases n - i,
    {
        let c = s.get_char(i);
        if c != ' ' {
            push_char(&mut r, c);
        }
        proof {
            let post = s@.subrange(0, i + 1 as int);
            assert(post.drop_last() =~= s@.subrange(0, i as int));
            assert(post.last() == s@[i as int]);
        }
        i = i + 1;
    }
    proof {
        assert(s@.subrange(0, n as int) =~= s@);
    }
    r
}

/// The length of the maximal run of characters satisfying `p` that starts at
/// index `i` of `s` (zero if `i` is out of range or `s[i]` fails `p`).
pub open spec fn run_len_at(s: Seq<char>, i: int, p: spec_fn(char) -> bool) -> nat
    decreases s.len() - i,
{
    if i < 0 || i >= s.len() || !p(s[i]) {
        0
    } else {
        1 + run_len_at(s, i + 1, p)
    }
}

/// Index `i` begins a maximal run of characters satisfying `p`: it satisfies
/// `p` and is either the first index or preceded by a character failing `p`.
pub open spec fn is_run_start(s: Seq<char>, i: int, p: spec_fn(char) -> bool) -> bool {
    0 <= i < s.len() && p(s[i]) && (i == 0 || !p(s[i - 1]))
}

/// The maximal run of characters satisfying `p` that starts at index `i`.
pub open spec fn run_at(s: Seq<char>, i: int, p: spec_fn(char) -> bool) -> Seq<char> {
    s.subrange(i, i + run_len_at(s, i, p))
}

/// A maximal run stays inside `s`, consists of characters satisfying `p`,
/// and is followed by the end of `s` or a character failing `p`.
pub proof fn lemma_run_len_at_props(s: Seq<char>, i: int, p: spec_fn(char) -> bool)
    requires
        0 <= i,
    ensures
        i <= s.len() ==> i + run_len_at(s, i, p) <= s.len(),
        forall|t: int| i <= t < i + run_len_at(s, i, p) ==> p(s[t]),
        i + run_len_at(s, i, p) < s.len() ==> !p(s[i + run_len_at(s, i, p)]),
    decreases s.len() - i,
{
    if 0 <= i < s.len() && p(s[i]) {
        lemma_run_len_at_props(s, i + 1, p);
    }
}

/// If `p` holds on all of `[i, j)` and fails at `j` (or `j` is the end of
/// `s`), then the run starting at `i` has length exactly `j - i`.
pub proof fn lemma_run_len_at_exact(s: Seq<char>, p: spec_fn(char) -> bool, i: int, j: int)
    requires
        0 <= i <= j <= s.len(),
        forall|t: int| i <= t < j ==> p(s[t]),
        j == s.len() || !p(s[j]),
    ensures
        run_len_at(s, i, p) == j - i,
    decreases j - i,
{
    if i < j {
        lemma_run_len_at_exact(s, p, i + 1, j);
    }
}

} // verus!
