//! Known-domain preprocessing: raw lines have their spaces stripped; lines
//! with fewer than two dot-separated labels are discarded; the rest form the
//! known-domain set that seeds and bounds the engine.

use vstd::prelude::*;
use vstd::string::*;
use crate::strutil::{remove_spaces, remove_spaces_str, label_count, count_char_str};
use crate::tokenset::{view_set, views, distinct_views, set_insert};

verus! {

/// The domain set denoted by the raw lines: each line with spaces removed,
/// kept only if it has at least two dot-separated labels.
pub open spec fn domain_set_of(lines: Seq<Seq<char>>) -> Set<Seq<char>>
    decreases lines.len(),
{
    if lines.len() == 0 {
        Set::empty()
    } else {
        let c = remove_spaces(lines.last());
        let rest = domain_set_of(lines.drop_last());
        if label_count(c) >= 2 {
            rest.insert(c)
        } else {
            rest
        }
    }
}

/// Builds the known-domain set from raw lines: spaces stripped, lines with
/// fewer than two labels discarded, duplicates kept once.
pub fn generate_domains(lines: &Vec<String>) -> (r: Vec<String>)
    ensures
        distinct_views(r@),
        view_set(r@) == domain_set_of(views(lines@)),
{
    let ghost ls = views(lines@);
    let mut r: Vec<String> = Vec::new();
    let nl = lines.len();
    let mut idx: usize = 0;
    proof {
        assert(view_set(r@) =~= domain_set_of(ls.subrange(0, 0)));
    }
    while idx < nl
        invariant
            nl == lines@.len(),
            idx <= nl,
            ls == views(lines@),
            distinct_views(r@),
            view_set(r@) == domain_set_of(ls.subrange(0, idx as int)),
        decreases nl - idx,
    {
        let cleaned = remove_spaces_str(lines[idx].as_str());
        proof {
            assert(ls[idx as int] == lines@[idx as int]@);
            assert(ls.subrange(0, idx + 1).drop_last() =~= ls.subrange(0, idx as int));
            assert(ls.subrange(0, idx + 1).last() == ls[idx as int]);
        }
        let dots = count_char_str(cleaned.as_str(), '.');
        if dots >= 1 {
            set_insert(&mut r, cleaned);
        } else {
            proof {
                assert(label_count(remove_spaces(ls[idx as int])) < 2);
            }
        }
        idx = idx + 1;
    }
    proof {
        assert(ls.subrange(0, nl as int) =~= ls);
    }
    r
}

} // verus!
