//! Sorting strings into Rust's order, without repeats.
use vstd::prelude::*;

use crate::text::{lemma_str_lt_order, str_less, str_lt, string_views};

verus! {

pub open spec fn strictly_sorted(s: Seq<Seq<char>>) -> bool {
    forall|i: int, j: int| 0 <= i < j < s.len() ==> str_lt(s[i], s[j])
}

/// `r` holds exactly the strings of `v`, each once, in increasing order (what collecting
/// into a set and sorting gives).
pub open spec fn is_sorted_set_of(r: Seq<Seq<char>>, v: Seq<Seq<char>>) -> bool {
    &&& strictly_sorted(r)
    &&& forall|x: Seq<char>| r.contains(x) <==> v.contains(x)
}

/// The strings of `v`, each once, in increasing order.
pub fn sort_dedup(v: &Vec<String>) -> (r: Vec<String>)
    ensures
        is_sorted_set_of(string_views(r@), string_views(v@)),
{
    let ghost vv = string_views(v@);
    let mut r: Vec<String> = Vec::new();
    for k in 0..v.len()
        invariant
            vv == string_views(v@),
            strictly_sorted(string_views(r@)),
            forall|x: Seq<char>| string_views(r@).contains(x) <==> vv.take(k as int).contains(x),
    {
        let ghost rv = string_views(r@);
        let x = &v[k];
        let mut pos: usize = 0;
        let mut found = false;
        while pos < r.len()
            invariant_except_break
                !found,
            invariant
                rv == string_views(r@),
                strictly_sorted(rv),
                pos <= rv.len(),
                forall|a: int| 0 <= a < pos ==> str_lt(rv[a], x@),
            ensures
                found ==> pos < rv.len() && rv[pos as int] == x@,
                !found ==> pos == rv.len() || str_lt(x@, rv[pos as int]),
            decreases rv.len() - pos,
        {
            if str_less(x.as_str(), r[pos].as_str()) {
                break;
            }
            if *x == r[pos] {
                found = true;
                break;
            }
            proof {
                lemma_str_lt_order(x@, rv[pos as int], rv[pos as int]);
            }
            pos = pos + 1;
        }
        let ghost t0 = vv.take(k as int);
        let ghost t1 = vv.take(k + 1);
        assert(t1 =~= t0.push(x@));
        if found {
            assert(rv[pos as int] == x@);
            assert forall|y: Seq<char>| rv.contains(y) <==> t1.contains(y) by {
                if y == x@ {
                    assert(rv.contains(y));
                }
                if t0.contains(y) {
                    let w = choose|w: int| 0 <= w < k && t0[w] == y;
                    assert(t1[w] == y);
                }
                if t1.contains(y) && y != x@ {
                    let w = choose|w: int| 0 <= w < k + 1 && t1[w] == y;
                    assert(t0[w] == y);
                }
            }
        } else {
            let ghost old_r = rv;
            proof {
                if pos < old_r.len() {
                    assert(str_lt(x@, old_r[pos as int]));
                }
            }
            r.insert(pos, x.clone());
            let ghost nr = string_views(r@);
            assert(nr =~= old_r.insert(pos as int, x@));
            assert forall|a: int, b: int| 0 <= a < b < nr.len() implies str_lt(nr[a], nr[b]) by {
                if b < pos {
                } else if b == pos {
                } else if a < pos {
                    assert(nr[b] == old_r[b - 1]);
                } else if a == pos {
                    assert(nr[b] == old_r[b - 1]);
                    if b - 1 > pos {
                        lemma_str_lt_order(x@, old_r[pos as int], old_r[b - 1]);
                    }
                } else {
                    assert(nr[a] == old_r[a - 1] && nr[b] == old_r[b - 1]);
                }
            }
            assert forall|y: Seq<char>| nr.contains(y) <==> t1.contains(y) by {
                if nr.contains(y) {
                    let w = choose|w: int| 0 <= w < nr.len() && nr[w] == y;
                    if w < pos {
                        assert(old_r[w] == y);
                    } else if w > pos {
                        assert(old_r[w - 1] == y);
                    }
                    if y != x@ {
                        assert(old_r.contains(y));
                        assert(t0.contains(y));
                        let u = choose|u: int| 0 <= u < k && t0[u] == y;
                        assert(t1[u] == y);
                    } else {
                        assert(t1[k as int] == y);
                    }
                }
                if t1.contains(y) {
                    let u = choose|u: int| 0 <= u < k + 1 && t1[u] == y;
                    if u == k {
                        assert(nr[pos as int] == y);
                    } else {
                        assert(t0[u] == y);
                        assert(old_r.contains(y));
                        let w = choose|w: int| 0 <= w < old_r.len() && old_r[w] == y;
                        if w < pos {
                            assert(nr[w] == y);
                        } else {
                            assert(nr[w + 1] == y);
                        }
                    }
                }
            }
        }
    }
    assert(vv.take(v@.len() as int) =~= vv);
    r
}

} // verus!
