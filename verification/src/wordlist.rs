//! Wordlist preprocessing: each line has its spaces stripped and contributes
//! the whole line as a token, every non-empty hyphen-delimited fragment of it
//! as a token, and for each such token its numeric-mutation variants, with
//! magnitude equal to the configured depth. The result is the permutation
//! token set that the engine consumes.

use vstd::prelude::*;
use vstd::string::*;
use crate::strutil::{remove_spaces, remove_spaces_str, is_run_start, run_at, lemma_run_len_at_exact};
use crate::numeric::{variants, has_big_run, permutator_numbers, NumericOverflowError};
use crate::tokenset::{view_set, views, distinct_views, set_insert};

verus! {

/// The fragment character class: everything but the hyphen. A non-empty
/// hyphen-delimited fragment of a line is a maximal run of such characters.
pub open spec fn frag_p() -> spec_fn(char) -> bool {
    |c: char| c != '-'
}

/// The set of non-empty hyphen-delimited fragments of `s`.
pub open spec fn fragment_set(s: Seq<char>) -> Set<Seq<char>> {
    Set::new(
        |w: Seq<char>|
            exists|i: int| #[trigger] is_run_start(s, i, frag_p()) && w == run_at(s, i, frag_p()),
    )
}

/// The fragments of `s` together with all their numeric-mutation variants
/// for magnitude `n`.
pub open spec fn fragment_tokens(s: Seq<char>, n: int) -> Set<Seq<char>> {
    fragment_set(s).union(
        Set::new(
            |w: Seq<char>|
                exists|t: Seq<char>| #[trigger] fragment_set(s).contains(t) && variants(
                    t,
                    n,
                ).contains(w),
        ),
    )
}

/// Some non-empty fragment of `s` has a digit run that overflows.
pub open spec fn fragment_overflows(s: Seq<char>) -> bool {
    exists|t: Seq<char>| #[trigger] fragment_set(s).contains(t) && has_big_run(t)
}

/// The tokens contributed directly (before numeric mutation) by the cleaned
/// line `c`: the line itself and each of its non-empty fragments.
pub open spec fn base_tokens(c: Seq<char>) -> Set<Seq<char>> {
    fragment_set(c).insert(c)
}

/// All tokens a cleaned line contributes for magnitude `n`: its base tokens
/// and every numeric-mutation variant of a base token.
pub open spec fn line_tokens(c: Seq<char>, n: int) -> Set<Seq<char>> {
    base_tokens(c).union(
        Set::new(
            |w: Seq<char>|
                exists|t: Seq<char>| #[trigger] base_tokens(c).contains(t) && variants(
                    t,
                    n,
                ).contains(w),
        ),
    )
}

/// Numeric mutation of some base token of the cleaned line fails: the line
/// cannot be processed.
pub open spec fn line_overflows(c: Seq<char>) -> bool {
    exists|t: Seq<char>| #[trigger] base_tokens(c).contains(t) && has_big_run(t)
}

/// The full permutation-token set for the given raw lines and magnitude `n`.
pub open spec fn wordlist_tokens(lines: Seq<Seq<char>>, n: int) -> Set<Seq<char>>
    decreases lines.len(),
{
    if lines.len() == 0 {
        Set::empty()
    } else {
        wordlist_tokens(lines.drop_last(), n).union(line_tokens(remove_spaces(lines.last()), n))
    }
}

/// Some raw line, after space stripping, has a base token whose digit run
/// overflows.
pub open spec fn wordlist_overflows(lines: Seq<Seq<char>>) -> bool {
    exists|i: int| 0 <= i < lines.len() && line_overflows(remove_spaces(#[trigger] lines[i]))
}

/// Inserts `t` and all its numeric-mutation variants into `permutations`.
/// Fails, possibly after some insertions, exactly when a digit run of `t`
/// exceeds `i32::MAX`.
fn insert_with_variants(
    permutations: &mut Vec<String>,
    t: &str,
    permutator_number: i32,
) -> (res: Result<(), NumericOverflowError>)
    ensures
        distinct_views(old(permutations)@) ==> distinct_views(final(permutations)@),
        res is Err <==> has_big_run(t@),
        res is Ok ==> view_set(final(permutations)@) == view_set(old(permutations)@).insert(
            t@,
        ).union(variants(t@, permutator_number as int)),
        view_set(old(permutations)@).subset_of(view_set(final(permutations)@)),
        view_set(final(permutations)@).subset_of(
            view_set(old(permutations)@).insert(t@).union(variants(t@, permutator_number as int)),
        ),
{
    set_insert(permutations, String::from_str(t));
    let res = permutator_numbers(permutations, t, permutator_number);
    proof {
        if res is Ok {
            assert(view_set(permutations@) =~= view_set(old(permutations)@).insert(t@).union(
                variants(t@, permutator_number as int),
            ));
        } else {
            assert(view_set(old(permutations)@).subset_of(view_set(permutations@)));
            assert(view_set(permutations@).subset_of(
                view_set(old(permutations)@).insert(t@).union(
                    variants(t@, permutator_number as int),
                ),
            ));
        }
    }
    res
}

/// The token contributions of every fragment of `s` that starts before
/// index `i`.
spec fn fragment_prefix_tokens(s: Seq<char>, i: int, n: int) -> Set<Seq<char>> {
    Set::new(
        |w: Seq<char>|
            exists|t: int|
                #[trigger] is_run_start(s, t, frag_p()) && t < i && (w == run_at(s, t, frag_p())
                    || variants(run_at(s, t, frag_p()), n).contains(w)),
    )
}

/// Splits `data` on hyphens and, for each non-empty fragment, inserts the
/// fragment and its numeric-mutation variants into `permutations`. Fails,
/// possibly after some insertions, exactly when a digit run of some fragment
/// exceeds `i32::MAX`.
pub fn go_bananas(
    permutations: &mut Vec<String>,
    data: &str,
    permutator_number: i32,
) -> (res: Result<(), NumericOverflowError>)
    ensures
        distinct_views(old(permutations)@) ==> distinct_views(final(permutations)@),
        res is Err <==> fragment_overflows(data@),
        res is Ok ==> view_set(final(permutations)@) == view_set(old(permutations)@).union(
            fragment_tokens(data@, permutator_number as int),
        ),
        view_set(old(permutations)@).subset_of(view_set(final(permutations)@)),
        view_set(final(permutations)@).subset_of(
            view_set(old(permutations)@).union(fragment_tokens(data@, permutator_number as int)),
        ),
{
    let ghost s = data@;
    let ghost base = view_set(old(permutations)@);
    let ghost n = permutator_number as int;
    let nlen: usize = data.unicode_len();
    let mut i: usize = 0;
    proof {
        assert(view_set(permutations@) =~= base.union(fragment_prefix_tokens(s, 0, n)));
    }
    while i < nlen
        invariant
            nlen == s.len(),
            s == data@,
            i <= nlen,
            base == view_set(old(permutations)@),
            n == permutator_number as int,
            view_set(permutations@) == base.union(fragment_prefix_tokens(s, i as int, n)),
            forall|t: int|
                #[trigger] is_run_start(s, t, frag_p()) && t < i ==> !has_big_run(
                    run_at(s, t, frag_p()),
                ),
            distinct_views(old(permutations)@) ==> distinct_views(permutations@),
        decreases nlen - i,
    {
        let c = data.get_char(i);
        let prev_frag = if i == 0 {
            false
        } else {
            data.get_char(i - 1) != '-'
        };
        if c != '-' && !prev_frag {
            let mut j: usize = i + 1;
            while j < nlen && data.get_char(j) != '-'
                invariant
                    nlen == s.len(),
                    s == data@,
                    i < j <= nlen,
                    forall|t: int| i <= t < j ==> s[t] != '-',
                decreases nlen - j,
            {
                j = j + 1;
            }
            proof {
                let p = frag_p();
                assert forall|t: int| i <= t < j implies p(s[t]) by {
                    assert(s[t] != '-');
                }
                if j < nlen {
                    assert(!p(s[j as int]));
                }
                lemma_run_len_at_exact(s, frag_p(), i as int, j as int);
                assert(is_run_start(s, i as int, frag_p()));
            }
            let frag = data.substring_char(i, j);
            proof {
                assert(frag@ == run_at(s, i as int, frag_p()));
            }
            let ghost before = view_set(permutations@);
            let res = insert_with_variants(permutations, frag, permutator_number);
            if res.is_err() {
                proof {
                    assert(fragment_set(s).contains(frag@));
                    assert(fragment_overflows(s));
                    assert(fragment_prefix_tokens(s, i as int, n).subset_of(
                        fragment_tokens(s, n),
                    )) by {
                        lemma_fragment_prefix_sub(s, i as int, n);
                    }
                    assert(view_set(permutations@).subset_of(
                        base.union(fragment_tokens(s, n)),
                    )) by {
                        assert(view_set(permutations@).subset_of(
                            before.insert(frag@).union(variants(frag@, n)),
                        ));
                        assert(fragment_tokens(s, n).contains(frag@));
                        assert forall|w: Seq<char>| variants(frag@, n).contains(w) implies
                            fragment_tokens(s, n).contains(w) by {
                            assert(fragment_set(s).contains(frag@) && variants(frag@, n).contains(
                                w,
                            ));
                        }
                    }
                }
                return res;
            }
            proof {
                assert(fragment_prefix_tokens(s, j as int, n) =~= fragment_prefix_tokens(
                    s,
                    i as int,
                    n,
                ).insert(frag@).union(variants(frag@, n))) by {
                    assert forall|w: Seq<char>| fragment_prefix_tokens(s, j as int, n).contains(w)
                        implies fragment_prefix_tokens(s, i as int, n).insert(frag@).union(
                        variants(frag@, n),
                    ).contains(w) by {
                        let t = choose|t: int|
                            #[trigger] is_run_start(s, t, frag_p()) && t < j && (w == run_at(
                                s,
                                t,
                                frag_p(),
                            ) || variants(run_at(s, t, frag_p()), n).contains(w));
                        if t < i {
                            assert(fragment_prefix_tokens(s, i as int, n).contains(w));
                        } else if t == i {
                        } else {
                            assert(s[t - 1] != '-');
                            assert(false);
                        }
                    }
                    assert forall|w: Seq<char>|
                        fragment_prefix_tokens(s, i as int, n).insert(frag@).union(
                            variants(frag@, n),
                        ).contains(w) implies fragment_prefix_tokens(s, j as int, n).contains(
                        w,
                    ) by {
                        if fragment_prefix_tokens(s, i as int, n).contains(w) {
                            let t = choose|t: int|
                                #[trigger] is_run_start(s, t, frag_p()) && t < i && (w == run_at(
                                    s,
                                    t,
                                    frag_p(),
                                ) || variants(run_at(s, t, frag_p()), n).contains(w));
                            assert(is_run_start(s, t, frag_p()) && t < j && (w == run_at(
                                s,
                                t,
                                frag_p(),
                            ) || variants(run_at(s, t, frag_p()), n).contains(w)));
                        } else {
                            assert(is_run_start(s, i as int, frag_p()) && (i as int) < j && (w
                                == run_at(s, i as int, frag_p()) || variants(
                                run_at(s, i as int, frag_p()),
                                n,
                            ).contains(w)));
                        }
                    }
                }
                assert(view_set(permutations@) =~= base.union(
                    fragment_prefix_tokens(s, j as int, n),
                ));
            }
            i = j;
        } else {
            proof {
                assert(!is_run_start(s, i as int, frag_p()));
                assert(fragment_prefix_tokens(s, i + 1, n) =~= fragment_prefix_tokens(
                    s,
                    i as int,
                    n,
                )) by {
                    assert forall|w: Seq<char>| fragment_prefix_tokens(s, i + 1, n).contains(w)
                        implies fragment_prefix_tokens(s, i as int, n).contains(w) by {
                        let t = choose|t: int|
                            #[trigger] is_run_start(s, t, frag_p()) && t < i + 1 && (w == run_at(
                                s,
                                t,
                                frag_p(),
                            ) || variants(run_at(s, t, frag_p()), n).contains(w));
                        assert(t != i);
                    }
                }
            }
            i = i + 1;
        }
    }
    proof {
        assert(fragment_prefix_tokens(s, nlen as int, n) =~= fragment_tokens(s, n)) by {
            lemma_fragment_prefix_sub(s, nlen as int, n);
            assert forall|w: Seq<char>| fragment_tokens(s, n).contains(w) implies
                fragment_prefix_tokens(s, nlen as int, n).contains(w) by {
                if fragment_set(s).contains(w) {
                    let t = choose|t: int|
                        #[trigger] is_run_start(s, t, frag_p()) && w == run_at(s, t, frag_p());
                    assert(is_run_start(s, t, frag_p()) && t < nlen && w == run_at(
                        s,
                        t,
                        frag_p(),
                    ));
                } else {
                    let f = choose|f: Seq<char>|
                        #[trigger] fragment_set(s).contains(f) && variants(f, n).contains(w);
                    let t = choose|t: int|
                        #[trigger] is_run_start(s, t, frag_p()) && f == run_at(s, t, frag_p());
                    assert(is_run_start(s, t, frag_p()) && t < nlen && variants(
                        run_at(s, t, frag_p()),
                        n,
                    ).contains(w));
                }
            }
        }
        if fragment_overflows(s) {
            let f = choose|f: Seq<char>| #[trigger] fragment_set(s).contains(f) && has_big_run(f);
            let t = choose|t: int|
                #[trigger] is_run_start(s, t, frag_p()) && f == run_at(s, t, frag_p());
            assert(!has_big_run(run_at(s, t, frag_p())));
            assert(false);
        }
    }
    Ok(())
}

/// A fragment-prefix contribution is always part of the full fragment
/// contribution.
proof fn lemma_fragment_prefix_sub(s: Seq<char>, i: int, n: int)
    ensures
        fragment_prefix_tokens(s, i, n).subset_of(fragment_tokens(s, n)),
{
    assert forall|w: Seq<char>| fragment_prefix_tokens(s, i, n).contains(w) implies
        fragment_tokens(s, n).contains(w) by {
        let t = choose|t: int|
            #[trigger] is_run_start(s, t, frag_p()) && t < i && (w == run_at(s, t, frag_p())
                || variants(run_at(s, t, frag_p()), n).contains(w));
        assert(fragment_set(s).contains(run_at(s, t, frag_p())));
        if w != run_at(s, t, frag_p()) {
            assert(fragment_set(s).contains(run_at(s, t, frag_p())) && variants(
                run_at(s, t, frag_p()),
                n,
            ).contains(w));
        }
    }
}

/// Inserting a line's own tokens and then its fragment tokens yields exactly
/// the line's contribution.
proof fn lemma_line_union(c: Seq<char>, n: int, b: Set<Seq<char>>)
    ensures
        b.insert(c).union(variants(c, n)).union(fragment_tokens(c, n)) == b.union(
            line_tokens(c, n),
        ),
{
    let lhs = b.insert(c).union(variants(c, n)).union(fragment_tokens(c, n));
    let rhs = b.union(line_tokens(c, n));
    assert forall|w: Seq<char>| lhs.contains(w) implies rhs.contains(w) by {
        if w == c {
            assert(base_tokens(c).contains(w));
        } else if variants(c, n).contains(w) {
            assert(base_tokens(c).contains(c) && variants(c, n).contains(w));
        } else if fragment_set(c).contains(w) {
            assert(base_tokens(c).contains(w));
        } else if fragment_tokens(c, n).contains(w) && !b.contains(w) {
            let f = choose|f: Seq<char>|
                #[trigger] fragment_set(c).contains(f) && variants(f, n).contains(w);
            assert(base_tokens(c).contains(f) && variants(f, n).contains(w));
        }
    }
    assert forall|w: Seq<char>| rhs.contains(w) implies lhs.contains(w) by {
        if !b.contains(w) {
            if base_tokens(c).contains(w) {
                if w != c {
                    assert(fragment_set(c).contains(w));
                    assert(fragment_tokens(c, n).contains(w));
                }
            } else if line_tokens(c, n).contains(w) {
                let f = choose|f: Seq<char>|
                    #[trigger] base_tokens(c).contains(f) && variants(f, n).contains(w);
                if f == c {
                    assert(variants(c, n).contains(w));
                } else {
                    assert(fragment_set(c).contains(f) && variants(f, n).contains(w));
                    assert(fragment_tokens(c, n).contains(w));
                }
            }
        }
    }
    assert(lhs =~= rhs);
}

/// Processing one more line extends the token set by that line's
/// contribution.
proof fn lemma_wordlist_tokens_step(ls: Seq<Seq<char>>, idx: int, n: int)
    requires
        0 <= idx < ls.len(),
    ensures
        wordlist_tokens(ls.subrange(0, idx + 1), n) == wordlist_tokens(
            ls.subrange(0, idx),
            n,
        ).union(line_tokens(remove_spaces(ls[idx]), n)),
{
    let pre = ls.subrange(0, idx);
    let post = ls.subrange(0, idx + 1);
    assert(post.drop_last() =~= pre);
    assert(post.last() == ls[idx]);
}

/// A base token of `c` that overflows makes the whole line overflow.
proof fn lemma_line_overflow_cases(c: Seq<char>)
    requires
        !has_big_run(c),
        !fragment_overflows(c),
    ensures
        !line_overflows(c),
{
    if line_overflows(c) {
        let f = choose|f: Seq<char>| #[trigger] base_tokens(c).contains(f) && has_big_run(f);
        if f == c {
            assert(false);
        } else {
            assert(fragment_set(c).contains(f));
            assert(fragment_overflows(c));
        }
    }
}

/// Builds the full permutation-token set for the given raw wordlist lines,
/// with numeric-mutation magnitude `permutation_number`. The result holds
/// each token once; its content is a function of the lines and the magnitude
/// alone. Fails exactly when some line has a base token with a digit run
/// beyond `i32::MAX`.
pub fn generate_permutations(lines: &Vec<String>, permutation_number: i32) -> (res: Result<
    Vec<String>,
    NumericOverflowError,
>)
    ensures
        res matches Ok(toks) ==> view_set(toks@) == wordlist_tokens(
            views(lines@),
            permutation_number as int,
        ) && distinct_views(toks@),
        res is Err <==> wordlist_overflows(views(lines@)),
{
    let ghost ls = views(lines@);
    let ghost n = permutation_number as int;
    let mut toks: Vec<String> = Vec::new();
    let nl = lines.len();
    let mut idx: usize = 0;
    proof {
        assert(view_set(toks@) =~= wordlist_tokens(ls.subrange(0, 0), n));
    }
    while idx < nl
        invariant
            nl == lines@.len(),
            idx <= nl,
            ls == views(lines@),
            n == permutation_number as int,
            view_set(toks@) == wordlist_tokens(ls.subrange(0, idx as int), n),
            distinct_views(toks@),
            forall|ii: int| 0 <= ii < idx ==> !line_overflows(remove_spaces(#[trigger] ls[ii])),
        decreases nl - idx,
    {
        let cleaned = remove_spaces_str(lines[idx].as_str());
        let ghost c = cleaned@;
        proof {
            assert(ls[idx as int] == lines@[idx as int]@);
            assert(c == remove_spaces(ls[idx as int]));
        }
        let ghost before = view_set(toks@);
        let r1 = insert_with_variants(&mut toks, cleaned.as_str(), permutation_number);
        if r1.is_err() {
            proof {
                assert(base_tokens(c).contains(c));
                assert(line_overflows(c));
                assert(wordlist_overflows(ls));
            }
            return Err(NumericOverflowError);
        }
        let r2 = go_bananas(&mut toks, cleaned.as_str(), permutation_number);
        if r2.is_err() {
            proof {
                let f = choose|f: Seq<char>|
                    #[trigger] fragment_set(c).contains(f) && has_big_run(f);
                assert(base_tokens(c).contains(f));
                assert(line_overflows(c));
                assert(wordlist_overflows(ls));
            }
            return Err(NumericOverflowError);
        }
        proof {
            lemma_line_union(c, n, before);
            lemma_wordlist_tokens_step(ls, idx as int, n);
            assert(view_set(toks@) == before.insert(c).union(variants(c, n)).union(
                fragment_tokens(c, n),
            ));
            assert(view_set(toks@) == wordlist_tokens(ls.subrange(0, idx + 1), n));
            lemma_line_overflow_cases(c);
        }
        idx = idx + 1;
    }
    proof {
        assert(ls.subrange(0, nl as int) =~= ls);
        if wordlist_overflows(ls) {
            let ii = choose|ii: int|
                0 <= ii < ls.len() && line_overflows(remove_spaces(#[trigger] ls[ii]));
            assert(!line_overflows(remove_spaces(ls[ii])));
            assert(false);
        }
    }
    Ok(toks)
}

/// Every non-empty hyphen-delimited fragment of a wordlist line (after
/// space stripping) is present in the loader's token set, whatever the
/// magnitude.
pub proof fn lemma_fragments_present(lines: Seq<Seq<char>>, n: int, i: int, f: Seq<char>)
    requires
        0 <= i < lines.len(),
        fragment_set(remove_spaces(lines[i])).contains(f),
    ensures
        wordlist_tokens(lines, n).contains(f),
    decreases lines.len(),
{
    if i == lines.len() - 1 {
        assert(base_tokens(remove_spaces(lines.last())).contains(f));
        assert(line_tokens(remove_spaces(lines.last()), n).contains(f));
    } else {
        assert(lines.drop_last()[i] == lines[i]);
        lemma_fragments_present(lines.drop_last(), n, i, f);
    }
}

/// The token set is deterministic in content: any two loader results for
/// the same lines and magnitude hold exactly the same set of token views,
/// whatever order their entries are in.
pub proof fn lemma_token_set_deterministic(
    lines: Seq<Seq<char>>,
    n: int,
    r1: Seq<String>,
    r2: Seq<String>,
)
    requires
        view_set(r1) == wordlist_tokens(lines, n),
        view_set(r2) == wordlist_tokens(lines, n),
    ensures
        view_set(r1) == view_set(r2),
{
}

} // verus!
