//! A collection of strings kept free of duplicate contents, used for the
//! permutation-token set and the known-domain set. Uniqueness matters, order
//! does not; contracts speak of the set of views held.

use vstd::prelude::*;

verus! {

/// The views of a sequence of strings.
pub open spec fn views(v: Seq<String>) -> Seq<Seq<char>> {
    v.map_values(|s: String| s@)
}

/// No two entries of `v` hold the same character sequence.
pub open spec fn distinct_views(v: Seq<String>) -> bool {
    forall|i: int, j: int| 0 <= i < j < v.len() ==> v[i]@ != v[j]@
}

/// The set of character sequences held by the strings of `v`.
pub open spec fn view_set(v: Seq<String>) -> Set<Seq<char>> {
    Set::new(|x: Seq<char>| views(v).contains(x))
}

/// Tests whether some entry of `v` holds the same characters as `s`.
pub fn set_contains(v: &Vec<String>, s: &str) -> (r: bool)
    ensures
        r == view_set(v@).contains(s@),
{
    let n = v.len();
    let mut i: usize = 0;
    while i < n
        invariant
            n == v@.len(),
            i <= n,
            forall|j: int| 0 <= j < i ==> v@[j]@ != s@,
        decreases n - i,
    {
        if crate::strutil::str_eq(v[i].as_str(), s) {
            proof {
                assert(views(v@)[i as int] == s@);
            }
            return true;
        }
        i = i + 1;
    }
    proof {
        assert forall|j: int| 0 <= j < views(v@).len() implies views(v@)[j] != s@ by {
            assert(views(v@)[j] == v@[j]@);
        }
    }
    false
}

/// Inserts `s` unless an entry with the same characters is already present.
pub fn set_insert(v: &mut Vec<String>, s: String)
    ensures
        view_set(final(v)@) == view_set(old(v)@).insert(s@),
        distinct_views(old(v)@) ==> distinct_views(final(v)@),
{
    let present = set_contains(v, s.as_str());
    if !present {
        let ghost oldv = v@;
        v.push(s);
        proof {
            assert(v@ == oldv.push(s));
            assert forall|j: int| 0 <= j < views(oldv).len() implies views(v@)[j] == views(oldv)[j]
                by {
                assert(v@[j] == oldv[j]);
            }
            assert(views(v@)[oldv.len() as int] == s@);
            if distinct_views(oldv) {
                assert forall|i: int, j: int| 0 <= i < j < v@.len() implies v@[i]@ != v@[j]@ by {
                    if j == oldv.len() {
                        assert(views(oldv)[i] == oldv[i]@);
                        assert(!views(oldv).contains(s@));
                    }
                }
            }
            assert(view_set(v@) =~= view_set(oldv).insert(s@)) by {
                assert forall|x: Seq<char>| view_set(v@).contains(x) implies view_set(
                    oldv,
                ).insert(s@).contains(x) by {
                    let i = choose|i: int| 0 <= i < views(v@).len() && views(v@)[i] == x;
                    if i < oldv.len() {
                        assert(views(oldv)[i] == x);
                    }
                }
                assert forall|x: Seq<char>| view_set(oldv).insert(s@).contains(x) implies view_set(
                    v@,
                ).contains(x) by {
                    if x == s@ {
                        assert(views(v@)[oldv.len() as int] == x);
                    } else {
                        let i = choose|i: int| 0 <= i < views(oldv).len() && views(oldv)[i] == x;
                        assert(views(v@)[i] == x);
                    }
                }
            }
        }
    } else {
        proof {
            let i = choose|i: int| 0 <= i < views(v@).len() && views(v@)[i] == s@;
            assert(view_set(v@) =~= view_set(v@).insert(s@));
        }
    }
}

} // verus!
