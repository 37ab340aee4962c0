//! The permutation engine: recursively combines a domain with each
//! permutation token through the join selector's separators, up to a bounded
//! depth, collecting previously-unseen candidates and recursing into them.
//! The known-domain set is read-only throughout a traversal: newly emitted
//! candidates are recursed into directly, never inserted back, so the same
//! string can be emitted more than once along different paths.
//!
//! The emission sequence is specified exactly by the mutually recursive
//! functions below, which mirror the traversal order: for each token, each
//! legal separator in order, then (only on the very first level, with one
//! depth step left) the apex augmentation.

use vstd::prelude::*;
use vstd::string::*;
use crate::strutil::{
    first_label, rest_after_first_label, strip_digits, ends_with, label_count, first_label_str,
    rest_after_first_label_str, strip_digits_str, str_eq, str_ends_with, count_char_str,
};
use crate::joins::{joins_of, get_joins, dash_sep};
use crate::tokenset::{view_set, views, set_contains};

verus! {

/// The recursion budget that remains once a raw depth argument is clamped:
/// anything below one means no work at all.
pub open spec fn clamp_depth(d: int) -> nat {
    if d < 1 {
        0
    } else {
        d as nat
    }
}

/// Everything the engine emits for `domain` with the given known-domain set,
/// token list, remaining depth and first-level flag, in emission order.
pub open spec fn engine_emissions(
    domain: Seq<char>,
    doms: Seq<Seq<char>>,
    toks: Seq<Seq<char>>,
    depth: nat,
    first: bool,
) -> Seq<Seq<char>>
    decreases depth, toks.len() + 1, 2nat, 0nat,
{
    if depth == 0 {
        Seq::empty()
    } else {
        token_emissions(domain, doms, toks, 0, depth, first)
    }
}

/// The emissions contributed by the tokens from index `k` on.
pub open spec fn token_emissions(
    domain: Seq<char>,
    doms: Seq<Seq<char>>,
    toks: Seq<Seq<char>>,
    k: int,
    depth: nat,
    first: bool,
) -> Seq<Seq<char>>
    decreases depth, toks.len() - k, 1nat, 0nat,
{
    if depth == 0 || k < 0 || k >= toks.len() {
        Seq::empty()
    } else {
        join_emissions(domain, doms, toks, k, joins_of(domain, toks[k], first), 0, depth, first)
            + apex_emissions(domain, doms, toks[k], depth, first) + token_emissions(
            domain,
            doms,
            toks,
            k + 1,
            depth,
            first,
        )
    }
}

/// The emissions contributed by token `k` through the separators from index
/// `j` on: each candidate with more than two labels and absent from the
/// known-domain set is emitted, followed by everything the recursion on it
/// emits with one less depth step.
pub open spec fn join_emissions(
    domain: Seq<char>,
    doms: Seq<Seq<char>>,
    toks: Seq<Seq<char>>,
    k: int,
    joins: Seq<Seq<char>>,
    j: int,
    depth: nat,
    first: bool,
) -> Seq<Seq<char>>
    decreases depth, toks.len() - k, 0nat, joins.len() - j,
{
    if depth == 0 || k < 0 || k >= toks.len() || j < 0 || j >= joins.len() {
        Seq::empty()
    } else {
        let cand = toks[k] + joins[j] + domain;
        let head = if label_count(cand) > 2 && !doms.contains(cand) {
            seq![cand] + engine_emissions(cand, doms, toks, (depth - 1) as nat, false)
        } else {
            Seq::empty()
        };
        head + join_emissions(domain, doms, toks, k, joins, j + 1, depth, first)
    }
}

/// The apex augmentation for one token: only with exactly one depth step
/// left on the very first level, and only when the digit-stripped first
/// label neither equals nor ends with the digit-stripped token, the two
/// synthesized candidates (first label glued to the token, bare and
/// dash-separated, followed by the remaining labels) are emitted under the
/// usual guards, without recursion.
pub open spec fn apex_emissions(
    domain: Seq<char>,
    doms: Seq<Seq<char>>,
    tok: Seq<char>,
    depth: nat,
    first: bool,
) -> Seq<Seq<char>> {
    if depth == 1 && first {
        let fl = first_label(domain);
        let rest = rest_after_first_label(domain);
        let sfl = strip_digits(fl);
        let st = strip_digits(tok);
        if sfl != st && !ends_with(sfl, st) {
            let c1 = fl + tok + rest;
            let c2 = fl + dash_sep() + tok + rest;
            (if label_count(c1) > 2 && !doms.contains(c1) {
                seq![c1]
            } else {
                Seq::empty()
            }) + (if label_count(c2) > 2 && !doms.contains(c2) {
                seq![c2]
            } else {
                Seq::empty()
            })
        } else {
            Seq::empty()
        }
    } else {
        Seq::empty()
    }
}

/// Appends one emission, extending the view sequence by exactly its view.
fn push_out(out: &mut Vec<String>, s: String)
    ensures
        views(final(out)@) == views(old(out)@) + seq![s@],
{
    let ghost ov = out@;
    let ghost sx = s;
    out.push(s);
    proof {
        assert(out@ == ov.push(sx));
        assert(views(ov.push(sx)) =~= views(ov) + seq![sx@]);
    }
}

/// Emits into `out` every candidate the engine reaches from `domain`, in
/// traversal order: exactly `engine_emissions` of the inputs. The
/// known-domain set only gates emission; it is never extended during the
/// traversal.
pub fn permutator(
    domain: &str,
    domains: &Vec<String>,
    permutations: &Vec<String>,
    depth: i32,
    first_time: bool,
    out: &mut Vec<String>,
)
    ensures
        views(final(out)@) == views(old(out)@) + engine_emissions(
            domain@,
            views(domains@),
            views(permutations@),
            clamp_depth(depth as int),
            first_time,
        ),
    decreases clamp_depth(depth as int),
{
    let ghost doms = views(domains@);
    let ghost toks = views(permutations@);
    let ghost d = clamp_depth(depth as int);
    let ghost base = views(out@);
    if depth < 1 {
        proof {
            assert(views(out@) =~= base + engine_emissions(domain@, doms, toks, d, first_time));
        }
        return ;
    }
    let ntoks = permutations.len();
    let mut k: usize = 0;
    while k < ntoks
        invariant
            ntoks == permutations@.len(),
            k <= ntoks,
            doms == views(domains@),
            toks == views(permutations@),
            depth >= 1,
            d == clamp_depth(depth as int),
            d == depth as nat,
            base + token_emissions(domain@, doms, toks, 0, d, first_time) == views(out@)
                + token_emissions(domain@, doms, toks, k as int, d, first_time),
        decreases ntoks - k,
    {
        let token = permutations[k].as_str();
        proof {
            assert(toks[k as int] == permutations@[k as int]@);
        }
        let joins = get_joins(domain, token, first_time);
        let ghost js = views(joins@);
        let ghost base2 = views(out@);
        let njoins = joins.len();
        let mut j: usize = 0;
        while j < njoins
            invariant
                ntoks == permutations@.len(),
                k < ntoks,
                njoins == joins@.len(),
                j <= njoins,
                doms == views(domains@),
                toks == views(permutations@),
                token@ == toks[k as int],
                depth >= 1,
                d == clamp_depth(depth as int),
                d == depth as nat,
                js == views(joins@),
                js == joins_of(domain@, toks[k as int], first_time),
                base2 + join_emissions(domain@, doms, toks, k as int, js, 0, d, first_time)
                    == views(out@) + join_emissions(
                    domain@,
                    doms,
                    toks,
                    k as int,
                    js,
                    j as int,
                    d,
                    first_time,
                ),
            decreases njoins - j,
        {
            let mut cand = String::from_str(token);
            cand.append(joins[j].as_str());
            cand.append(domain);
            proof {
                assert(js[j as int] == joins@[j as int]@);
                assert(cand@ == toks[k as int] + js[j as int] + domain@);
            }
            let ghost cseq = cand@;
            let ghost head = if label_count(cseq) > 2 && !doms.contains(cseq) {
                seq![cseq] + engine_emissions(cseq, doms, toks, (d - 1) as nat, false)
            } else {
                Seq::<Seq<char>>::empty()
            };
            let ghost before = views(out@);
            let dots = count_char_str(cand.as_str(), '.');
            let known = set_contains(domains, cand.as_str());
            proof {
                assert(known == doms.contains(cseq)) by {
                    assert(view_set(domains@).contains(cseq) == views(domains@).contains(cseq));
                }
            }
            if dots >= 2 && !known {
                let next = cand.clone();
                push_out(out, cand);
                permutator(next.as_str(), domains, permutations, depth - 1, false, out);
                proof {
                    assert(clamp_depth(depth - 1) == (d - 1) as nat);
                    assert(views(out@) =~= before + head);
                }
            } else {
                proof {
                    assert(views(out@) =~= before + head);
                }
            }
            proof {
                assert(join_emissions(domain@, doms, toks, k as int, js, j as int, d, first_time)
                    == head + join_emissions(
                    domain@,
                    doms,
                    toks,
                    k as int,
                    js,
                    j + 1,
                    d,
                    first_time,
                ));
                assert(base2 + join_emissions(domain@, doms, toks, k as int, js, 0, d, first_time)
                    =~= views(out@) + join_emissions(
                    domain@,
                    doms,
                    toks,
                    k as int,
                    js,
                    j + 1,
                    d,
                    first_time,
                ));
            }
            j = j + 1;
        }
        let ghost mid = views(out@);
        let ghost ap = apex_emissions(domain@, doms, toks[k as int], d, first_time);
        if depth == 1 && first_time {
            let fl = first_label_str(domain);
            let rest = rest_after_first_label_str(domain);
            let sfl = strip_digits_str(fl);
            let st = strip_digits_str(token);
            if !str_eq(sfl.as_str(), st.as_str()) && !str_ends_with(sfl.as_str(), st.as_str()) {
                let mut c1 = String::from_str(fl);
                c1.append(token);
                c1.append(rest);
                let ghost c1s = c1@;
                let dots1 = count_char_str(c1.as_str(), '.');
                let known1 = set_contains(domains, c1.as_str());
                proof {
                    assert(known1 == doms.contains(c1s)) by {
                        assert(view_set(domains@).contains(c1s) == views(domains@).contains(c1s));
                    }
                }
                if dots1 >= 2 && !known1 {
                    push_out(out, c1);
                }
                let mut c2 = String::from_str(fl);
                c2.append("-");
                c2.append(token);
                c2.append(rest);
                proof {
                    reveal_strlit("-");
                    assert(("-")@ =~= dash_sep());
                    assert(c2@ == first_label(domain@) + dash_sep() + toks[k as int]
                        + rest_after_first_label(domain@));
                }
                let ghost c2s = c2@;
                let dots2 = count_char_str(c2.as_str(), '.');
                let known2 = set_contains(domains, c2.as_str());
                proof {
                    assert(known2 == doms.contains(c2s)) by {
                        assert(view_set(domains@).contains(c2s) == views(domains@).contains(c2s));
                    }
                }
                if dots2 >= 2 && !known2 {
                    push_out(out, c2);
                }
                proof {
                    assert(views(out@) =~= mid + ap);
                }
            } else {
                proof {
                    assert(views(out@) =~= mid + ap);
                }
            }
        } else {
            proof {
                assert(views(out@) =~= mid + ap);
            }
        }
        proof {
            assert(token_emissions(domain@, doms, toks, k as int, d, first_time) == join_emissions(
                domain@,
                doms,
                toks,
                k as int,
                js,
                0,
                d,
                first_time,
            ) + ap + token_emissions(domain@, doms, toks, k + 1, d, first_time));
            assert(base + token_emissions(domain@, doms, toks, 0, d, first_time) =~= views(out@)
                + token_emissions(domain@, doms, toks, k + 1, d, first_time));
        }
        k = k + 1;
    }
    proof {
        assert(token_emissions(domain@, doms, toks, ntoks as int, d, first_time)
            == Seq::<Seq<char>>::empty());
        assert(views(out@) =~= base + engine_emissions(domain@, doms, toks, d, first_time));
    }
}

/// The worst-case emission count for a token set of size `k` and a depth
/// budget: per level, each token contributes at most two separator
/// candidates (each followed by a full sub-traversal one level deeper) and
/// at most two apex candidates — the geometric sum behind the engine's
/// combinatorial-explosion hazard.
pub open spec fn emission_bound(k: nat, depth: nat) -> nat
    decreases depth,
{
    if depth == 0 {
        0
    } else {
        k * (2 * (1 + emission_bound(k, (depth - 1) as nat)) + 2)
    }
}

/// Bounded traversal: the engine never recurses past its depth budget, and
/// its total emission count is finite, bounded by the geometric sum
/// `emission_bound` in the token-set size and the per-level branching of at
/// most two separators (plus two apex candidates) per token.
pub proof fn lemma_engine_emissions_bounded(
    domain: Seq<char>,
    doms: Seq<Seq<char>>,
    toks: Seq<Seq<char>>,
    depth: nat,
    first: bool,
)
    ensures
        engine_emissions(domain, doms, toks, 0, first) == Seq::<Seq<char>>::empty(),
        engine_emissions(domain, doms, toks, depth, first).len() <= emission_bound(
            toks.len(),
            depth,
        ),
    decreases depth, toks.len() + 1, 2nat, 0nat,
{
    if depth != 0 {
        lemma_token_emissions_bounded(domain, doms, toks, 0, depth, first);
    }
}

proof fn lemma_token_emissions_bounded(
    domain: Seq<char>,
    doms: Seq<Seq<char>>,
    toks: Seq<Seq<char>>,
    k: int,
    depth: nat,
    first: bool,
)
    requires
        0 <= k <= toks.len(),
    ensures
        token_emissions(domain, doms, toks, k, depth, first).len() <= (toks.len() - k) * (2 * (1
            + emission_bound(toks.len(), (depth - 1) as nat)) + 2),
    decreases depth, toks.len() - k, 1nat, 0nat,
{
    let per = 2 * (1 + emission_bound(toks.len(), (depth - 1) as nat)) + 2;
    if depth == 0 || k >= toks.len() {
        assert((toks.len() - k) * per >= 0) by (nonlinear_arith)
            requires
                per >= 0,
                toks.len() - k >= 0,
        ;
    } else {
        let joins = joins_of(domain, toks[k], first);
        lemma_join_emissions_bounded(domain, doms, toks, k, joins, 0, depth, first);
        lemma_apex_emissions_bounded(domain, doms, toks[k], depth, first);
        lemma_token_emissions_bounded(domain, doms, toks, k + 1, depth, first);
        assert(joins.len() <= 2);
        assert(joins.len() * (1 + emission_bound(toks.len(), (depth - 1) as nat)) <= 2 * (1
            + emission_bound(toks.len(), (depth - 1) as nat))) by (nonlinear_arith)
            requires
                joins.len() <= 2,
                1 + emission_bound(toks.len(), (depth - 1) as nat) >= 0,
        ;
        assert(per + (toks.len() - k - 1) * per == (toks.len() - k) * per) by (nonlinear_arith);
    }
}

proof fn lemma_join_emissions_bounded(
    domain: Seq<char>,
    doms: Seq<Seq<char>>,
    toks: Seq<Seq<char>>,
    k: int,
    joins: Seq<Seq<char>>,
    j: int,
    depth: nat,
    first: bool,
)
    requires
        0 <= j <= joins.len(),
    ensures
        join_emissions(domain, doms, toks, k, joins, j, depth, first).len() <= (joins.len() - j) * (
        1 + emission_bound(toks.len(), (depth - 1) as nat)),
    decreases depth, toks.len() - k, 0nat, joins.len() - j,
{
    let unit = 1 + emission_bound(toks.len(), (depth - 1) as nat);
    if depth == 0 || k < 0 || k >= toks.len() || j >= joins.len() {
        assert((joins.len() - j) * unit >= 0) by (nonlinear_arith)
            requires
                unit >= 0,
                joins.len() - j >= 0,
        ;
    } else {
        let cand = toks[k] + joins[j] + domain;
        lemma_engine_emissions_bounded(cand, doms, toks, (depth - 1) as nat, false);
        lemma_join_emissions_bounded(domain, doms, toks, k, joins, j + 1, depth, first);
        assert(unit + (joins.len() - j - 1) * unit == (joins.len() - j) * unit)
            by (nonlinear_arith);
    }
}

proof fn lemma_apex_emissions_bounded(
    domain: Seq<char>,
    doms: Seq<Seq<char>>,
    tok: Seq<char>,
    depth: nat,
    first: bool,
)
    ensures
        apex_emissions(domain, doms, tok, depth, first).len() <= 2,
{
}

/// The apex augmentation fires at most twice per token, and only on the
/// initial call with exactly one depth step left: with the first-level flag
/// cleared — as it is on every recursive call — or with any other depth, it
/// contributes nothing.
pub proof fn lemma_apex_only_first_level(
    domain: Seq<char>,
    doms: Seq<Seq<char>>,
    tok: Seq<char>,
    depth: nat,
    first: bool,
)
    ensures
        apex_emissions(domain, doms, tok, depth, first).len() <= 2,
        !(depth == 1 && first) ==> apex_emissions(domain, doms, tok, depth, first)
            == Seq::<Seq<char>>::empty(),
{
}

} // verus!
