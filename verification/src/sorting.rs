//! Names in order: the order in which `String`s compare, which is the
//! order of their characters from the first on, a prefix before any
//! longer name.

use vstd::prelude::*;
use crate::text::chars_of;

verus! {

/// `a` comes before `b`.
pub open spec fn name_lt(a: Seq<char>, b: Seq<char>) -> bool
    decreases a.len(),
{
    if a.len() == 0 {
        b.len() > 0
    } else if b.len() == 0 {
        false
    } else if a[0] < b[0] {
        true
    } else if a[0] == b[0] {
        name_lt(a.drop_first(), b.drop_first())
    } else {
        false
    }
}

/// Every name of `s` comes before the next one.
pub open spec fn strictly_sorted(s: Seq<Seq<char>>) -> bool {
    forall|i: int, j: int| 0 <= i < j < s.len() ==> name_lt(#[trigger] s[i], #[trigger] s[j])
}

/// The names of the finite set `names`, in order.
pub open spec fn sorted_names(names: Set<Seq<char>>) -> Seq<Seq<char>> {
    choose|s: Seq<Seq<char>>| strictly_sorted(s) && s.to_set() == names
}

pub proof fn lemma_name_lt_irreflexive(a: Seq<char>)
    ensures
        !name_lt(a, a),
    decreases a.len(),
{
    if a.len() > 0 {
        lemma_name_lt_irreflexive(a.drop_first());
    }
}

pub proof fn lemma_name_lt_transitive(a: Seq<char>, b: Seq<char>, c: Seq<char>)
    requires
        name_lt(a, b),
        name_lt(b, c),
    ensures
        name_lt(a, c),
    decreases a.len(),
{
    if a.len() > 0 && b.len() > 0 && c.len() > 0 {
        if a[0] == b[0] && b[0] == c[0] {
            lemma_name_lt_transitive(a.drop_first(), b.drop_first(), c.drop_first());
        }
    }
}

pub proof fn lemma_name_lt_total(a: Seq<char>, b: Seq<char>)
    ensures
        name_lt(a, b) || a == b || name_lt(b, a),
    decreases a.len(),
{
    if a.len() == 0 && b.len() == 0 {
        assert(a =~= b);
    } else if a.len() > 0 && b.len() > 0 && a[0] == b[0] {
        lemma_name_lt_total(a.drop_first(), b.drop_first());
        if a.drop_first() == b.drop_first() {
            assert(a =~= seq![a[0]] + a.drop_first());
            assert(b =~= seq![b[0]] + b.drop_first());
        }
    }
}

pub proof fn lemma_name_lt_asymmetric(a: Seq<char>, b: Seq<char>)
    requires
        name_lt(a, b),
    ensures
        !name_lt(b, a),
{
    if name_lt(b, a) {
        lemma_name_lt_transitive(a, b, a);
        lemma_name_lt_irreflexive(a);
    }
}

/// Two sorted lists of the same names are the same list.
pub proof fn lemma_sorted_unique(a: Seq<Seq<char>>, b: Seq<Seq<char>>)
    requires
        strictly_sorted(a),
        strictly_sorted(b),
        a.to_set() == b.to_set(),
    ensures
        a == b,
    decreases a.len() + b.len(),
{
    if a.len() == 0 {
        if b.len() > 0 {
            assert(b.to_set().contains(b[0]));
        }
        assert(a =~= b);
    } else if b.len() == 0 {
        assert(a.to_set().contains(a[0]));
    } else {
        assert(b.to_set().contains(a[0]));
        assert(a.to_set().contains(b[0]));
        let j = choose|j: int| 0 <= j < b.len() && b[j] == a[0];
        let i = choose|i: int| 0 <= i < a.len() && a[i] == b[0];
        if j > 0 {
            assert(name_lt(b[0], b[j]));
            if i > 0 {
                assert(name_lt(a[0], a[i]));
                lemma_name_lt_asymmetric(a[0], a[i]);
            } else {
                lemma_name_lt_irreflexive(a[0]);
            }
        }
        assert(a[0] == b[0]);
        let a1 = a.drop_first();
        let b1 = b.drop_first();
        assert forall|x: Seq<char>| a1.to_set().contains(x) implies b1.to_set().contains(x) by {
            let k = choose|k: int| 0 <= k < a1.len() && a1[k] == x;
            assert(a[k + 1] == x);
            assert(name_lt(a[0], x));
            assert(b.to_set().contains(x));
            let m = choose|m: int| 0 <= m < b.len() && b[m] == x;
            if m == 0 {
                lemma_name_lt_irreflexive(x);
            }
            assert(b1[m - 1] == x);
        }
        assert forall|x: Seq<char>| b1.to_set().contains(x) implies a1.to_set().contains(x) by {
            let k = choose|k: int| 0 <= k < b1.len() && b1[k] == x;
            assert(b[k + 1] == x);
            assert(name_lt(b[0], x));
            assert(a.to_set().contains(x));
            let m = choose|m: int| 0 <= m < a.len() && a[m] == x;
            if m == 0 {
                lemma_name_lt_irreflexive(x);
            }
            assert(a1[m - 1] == x);
        }
        assert(a1.to_set() =~= b1.to_set());
        lemma_sorted_unique(a1, b1);
        assert(a =~= seq![a[0]] + a1);
        assert(b =~= seq![b[0]] + b1);
    }
}

/// Whether `a` comes before `b`.
pub fn name_less(a: &String, b: &String) -> (r: bool)
    ensures
        r == name_lt(a@, b@),
{
    let x = chars_of(a.as_str());
    let y = chars_of(b.as_str());
    let mut i: usize = 0;
    assert(x@.skip(0) =~= x@);
    assert(y@.skip(0) =~= y@);
    while i < x.len() && i < y.len() && x[i] == y[i]
        invariant
            i <= x@.len(),
            i <= y@.len(),
            name_lt(a@, b@) == name_lt(x@.skip(i as int), y@.skip(i as int)),
            x@ == a@,
            y@ == b@,
        decreases x@.len() - i,
    {
        assert(x@.skip(i as int).drop_first() =~= x@.skip(i + 1));
        assert(y@.skip(i as int).drop_first() =~= y@.skip(i + 1));
        i = i + 1;
    }
    if i == x.len() {
        i < y.len()
    } else if i == y.len() {
        false
    } else {
        x[i] < y[i]
    }
}

/// The names of `v`, each once, in order.
pub fn sorted_copy(v: &Vec<String>) -> (r: Vec<String>)
    ensures
        strictly_sorted(r@.map_values(|s: String| s@)),
        r@.map_values(|s: String| s@).to_set() == v@.map_values(|s: String| s@).to_set(),
{
    let ghost vv = v@.map_values(|s: String| s@);
    let mut r: Vec<String> = Vec::new();
    let mut i: usize = 0;
    while i < v.len()
        invariant
            i <= v@.len(),
            vv == v@.map_values(|s: String| s@),
            strictly_sorted(r@.map_values(|s: String| s@)),
            r@.map_values(|s: String| s@).to_set() == vv.take(i as int).to_set(),
        decreases v@.len() - i,
    {
        let ghost rv = r@.map_values(|s: String| s@);
        let x = &v[i];
        // the first place whose name does not come before x
        let mut p: usize = 0;
        while p < r.len() && name_less(&r[p], x)
            invariant
                p <= r@.len(),
                rv == r@.map_values(|s: String| s@),
                forall|k: int| 0 <= k < p ==> name_lt(#[trigger] rv[k], x@),
            decreases r@.len() - p,
        {
            p = p + 1;
        }
        let dup = p < r.len() && r[p] == *x;
        if !dup {
            r.insert(p, x.clone());
            proof {
                let nv = r@.map_values(|s: String| s@);
                assert(nv =~= rv.insert(p as int, x@));
                assert forall|a: int, b: int| 0 <= a < b < nv.len() implies name_lt(#[trigger] nv[a], #[trigger] nv[b]) by {
                    if p < rv.len() {
                        lemma_name_lt_total(rv[p as int], x@);
                    }
                    if a < p && b == p {
                    } else if a == p && b > p {
                        // x comes before rv[p], which comes before or is rv[b - 1]
                        if b - 1 > p {
                            lemma_name_lt_transitive(x@, rv[p as int], rv[b - 1]);
                        }
                    } else if a < p && b > p {
                    }
                }
                assert forall|y: Seq<char>| nv.to_set().contains(y) implies rv.to_set().insert(x@).contains(y) by {
                    let k = choose|k: int| 0 <= k < nv.len() && nv[k] == y;
                    if k < p {
                        assert(rv[k] == y);
                    } else if k > p {
                        assert(rv[k - 1] == y);
                    }
                }
                assert forall|y: Seq<char>| rv.to_set().insert(x@).contains(y) implies nv.to_set().contains(y) by {
                    if y == x@ {
                        assert(nv[p as int] == y);
                    } else {
                        let k = choose|k: int| 0 <= k < rv.len() && rv[k] == y;
                        if k < p {
                            assert(nv[k] == y);
                        } else {
                            assert(nv[k + 1] == y);
                        }
                    }
                }
                assert(nv.to_set() =~= rv.to_set().insert(x@));
            }
        } else {
            proof {
                assert(rv.to_set().contains(x@)) by {
                    assert(rv[p as int] == x@);
                }
            }
        }
        proof {
            assert(vv.take(i + 1) =~= vv.take(i as int).push(x@));
            vv.take(i as int).lemma_push_to_set_commute(x@);
            assert(vv.take(i + 1).to_set() =~= vv.take(i as int).to_set().insert(x@));
            assert(r@.map_values(|s: String| s@).to_set() =~= vv.take(i + 1).to_set());
        }
        i = i + 1;
    }
    proof {
        assert(vv.take(v@.len() as int) =~= vv);
    }
    r
}

} // verus!
