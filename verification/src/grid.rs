//! The data side of the comparison grid: the ordered intersection of the
//! group (or property) names shared by every compared setup.

use vstd::prelude::*;

verus! {

use crate::str_ext::chars_of;
use crate::text::chars_eq;

/// Every list of `rest` contains `k`.
pub open spec fn all_contain(rest: Seq<Seq<Seq<char>>>, k: Seq<char>) -> bool {
    forall|m: int| 0 <= m < rest.len() ==> (#[trigger] rest[m]).contains(k)
}

/// The keys of `first` that every list of `rest` also contains, in the
/// order (and multiplicity) of `first`.
pub open spec fn spec_intersect(first: Seq<Seq<char>>, rest: Seq<Seq<Seq<char>>>) -> Seq<Seq<char>>
    decreases first.len(),
{
    if first.len() == 0 {
        Seq::empty()
    } else {
        let tail = spec_intersect(first.skip(1), rest);
        if all_contain(rest, first[0]) {
            seq![first[0]] + tail
        } else {
            tail
        }
    }
}

/// The ordered intersection of a family of key lists: the first list
/// filtered to the keys every other list contains; empty for an empty
/// family.
pub open spec fn spec_intersect_keys(lists: Seq<Seq<Seq<char>>>) -> Seq<Seq<char>> {
    if lists.len() == 0 {
        Seq::empty()
    } else {
        spec_intersect(lists[0], lists.skip(1))
    }
}

/// Whether `l` holds a string equal to `k`.
fn list_contains(l: &Vec<String>, k: &String) -> (b: bool)
    ensures
        b == l.deep_view().contains(k@),
{
    let kv = chars_of(k.as_str());
    let mut m: usize = 0;
    while m < l.len()
        invariant
            0 <= m <= l@.len(),
            kv@ == k@,
            forall|x: int| 0 <= x < m ==> #[trigger] l.deep_view()[x] != k@,
        decreases l@.len() - m,
    {
        let lv = chars_of(l[m].as_str());
        if chars_eq(&lv, &kv) {
            proof {
                assert(l.deep_view()[m as int] == l@[m as int]@);
                assert(l.deep_view().contains(k@)) by {
                    assert(l.deep_view()[m as int] == k@);
                }
            }
            return true;
        }
        proof {
            assert(l.deep_view()[m as int] == l@[m as int]@);
        }
        m = m + 1;
    }
    proof {
        if l.deep_view().contains(k@) {
            let x = choose|x: int| 0 <= x < l.deep_view().len() && l.deep_view()[x] == k@;
            assert(l.deep_view()[x] != k@);
        }
    }
    false
}

/// The keys shared by every list of the family: the first list, in order,
/// restricted to the keys all other lists contain.
pub fn intersect_keys(all_keys: &Vec<Vec<String>>) -> (r: Vec<String>)
    ensures
        r.deep_view() == spec_intersect_keys(all_keys.deep_view()),
{
    let mut r: Vec<String> = Vec::new();
    if all_keys.len() == 0 {
        proof {
            assert(r.deep_view() =~~= spec_intersect_keys(all_keys.deep_view()));
        }
        return r;
    }
    let first = &all_keys[0];
    let ghost fv = all_keys.deep_view()[0];
    let ghost rest = all_keys.deep_view().skip(1);
    proof {
        assert(fv == all_keys@[0].deep_view());
        assert(fv.skip(0) =~= fv);
    }
    let mut k: usize = 0;
    while k < first.len()
        invariant
            0 <= k <= first@.len(),
            fv == first.deep_view(),
            rest == all_keys.deep_view().skip(1),
            all_keys@.len() >= 1,
            first == all_keys@[0],
            r.deep_view() + spec_intersect(fv.skip(k as int), rest) == spec_intersect(fv, rest),
        decreases first@.len() - k,
    {
        proof {
            assert(fv.skip(k as int)[0] == fv[k as int]);
            assert(fv.skip(k + 1) =~= fv.skip(k as int).skip(1));
            assert(fv[k as int] == first@[k as int]@);
        }
        let key = &first[k];
        let mut keep = true;
        let mut m: usize = 1;
        while m < all_keys.len()
            invariant
                1 <= m <= all_keys@.len(),
                rest == all_keys.deep_view().skip(1),
                key@ == fv[k as int],
                k < fv.len(),
                first == all_keys@[0],
                keep == (forall|x: int| 0 <= x < m - 1 ==> (#[trigger] rest[x]).contains(key@)),
            decreases all_keys@.len() - m,
        {
            proof {
                assert(rest[m - 1] == all_keys.deep_view()[m as int]);
                assert(all_keys.deep_view()[m as int] == all_keys@[m as int].deep_view());
            }
            let c = list_contains(&all_keys[m], key);
            proof {
                if !c {
                    assert(!rest[m - 1].contains(key@));
                }
            }
            keep = keep && c;
            m = m + 1;
        }
        let ghost r0 = r.deep_view();
        if keep {
            proof {
                assert(all_contain(rest, fv[k as int]));
            }
            r.push(key.clone());
            proof {
                assert(r.deep_view() =~~= r0 + seq![fv[k as int]]);
                assert((r0 + seq![fv[k as int]]) + spec_intersect(fv.skip(k + 1), rest) =~~= r0 + (
                seq![fv[k as int]] + spec_intersect(fv.skip(k + 1), rest)));
            }
        } else {
            proof {
                let x = choose|x: int| 0 <= x < rest.len() && !(#[trigger] rest[x]).contains(
                    fv[k as int],
                );
                assert(!all_contain(rest, fv[k as int]));
            }
        }
        k = k + 1;
    }
    proof {
        assert(fv.skip(fv.len() as int) =~= Seq::<Seq<char>>::empty());
        assert(r.deep_view() + Seq::<Seq<char>>::empty() =~= r.deep_view());
        assert(r.deep_view() =~~= spec_intersect_keys(all_keys.deep_view()));
    }
    r
}

} // verus!
