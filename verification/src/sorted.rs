//! Ordered sets of names: the lexicographic order of `str` (byte order of the
//! UTF-8 encoding, which is the order of code points) and sorted, duplicate-free
//! sequences of names, as `BTreeSet<&str>` keeps them.
use vstd::prelude::*;
use crate::text::eq_chars;

verus! {

/// `a < b` for `str`: lexicographic by code point.
pub open spec fn lt(a: Seq<char>, b: Seq<char>) -> bool
    decreases a.len(),
{
    if a.len() == 0 {
        b.len() > 0
    } else if b.len() == 0 {
        false
    } else if a[0] != b[0] {
        (a[0] as u32) < (b[0] as u32)
    } else {
        lt(a.drop_first(), b.drop_first())
    }
}

pub proof fn lemma_lt_irreflexive(a: Seq<char>)
    ensures
        !lt(a, a),
    decreases a.len(),
{
    if a.len() > 0 {
        lemma_lt_irreflexive(a.drop_first());
    }
}

pub proof fn lemma_lt_transitive(a: Seq<char>, b: Seq<char>, c: Seq<char>)
    requires
        lt(a, b),
        lt(b, c),
    ensures
        lt(a, c),
    decreases a.len(),
{
    if a.len() > 0 && b.len() > 0 && c.len() > 0 && a[0] == b[0] && b[0] == c[0] {
        lemma_lt_transitive(a.drop_first(), b.drop_first(), c.drop_first());
    }
}

pub proof fn lemma_lt_total(a: Seq<char>, b: Seq<char>)
    ensures
        a == b || lt(a, b) || lt(b, a),
    decreases a.len(),
{
    if a.len() == 0 {
        if b.len() == 0 {
            assert(a =~= b);
        }
    } else if b.len() > 0 && a[0] == b[0] {
        lemma_lt_total(a.drop_first(), b.drop_first());
        if a.drop_first() == b.drop_first() {
            assert(a =~= seq![a[0]] + a.drop_first());
            assert(b =~= seq![b[0]] + b.drop_first());
        }
    } else if b.len() > 0 {
        vstd::utf8::char_u32_cast(a[0], a[0] as u32);
        vstd::utf8::char_u32_cast(b[0], b[0] as u32);
    }
}

pub proof fn lemma_lt_asymmetric(a: Seq<char>, b: Seq<char>)
    requires
        lt(a, b),
    ensures
        !lt(b, a),
{
    if lt(b, a) {
        lemma_lt_transitive(a, b, a);
        lemma_lt_irreflexive(a);
    }
}

/// Strictly increasing: sorted and free of duplicates.
pub open spec fn sorted_strict(s: Seq<Seq<char>>) -> bool {
    forall|i: int, j: int| 0 <= i < j < s.len() ==> lt(#[trigger] s[i], #[trigger] s[j])
}

/// The names of a finite set in increasing order (the iteration order of a `BTreeSet`).
pub open spec fn sorted_elements(set: Set<Seq<char>>) -> Seq<Seq<char>> {
    choose|s: Seq<Seq<char>>| sorted_strict(s) && s.to_set() == set
}

proof fn lemma_sorted_min(s: Seq<Seq<char>>, x: Seq<char>)
    requires
        sorted_strict(s),
        s.contains(x),
    ensures
        s.len() > 0,
        x == s[0] || lt(s[0], x),
{
    let k = choose|k: int| 0 <= k < s.len() && s[k] == x;
    if k > 0 {
        assert(lt(s[0], s[k]));
    }
}

/// A strictly increasing sequence is determined by its set of elements.
pub proof fn lemma_sorted_unique(a: Seq<Seq<char>>, b: Seq<Seq<char>>)
    requires
        sorted_strict(a),
        sorted_strict(b),
        a.to_set() == b.to_set(),
    ensures
        a == b,
    decreases a.len(),
{
    if a.len() == 0 {
        if b.len() > 0 {
            assert(b.to_set().contains(b[0]));
        }
        assert(a =~= b);
    } else {
        assert(a.to_set().contains(a[0]));
        assert(b.to_set().contains(a[0]));
        lemma_sorted_min(b, a[0]);
        assert(a.to_set().contains(b[0]));
        lemma_sorted_min(a, b[0]);
        if a[0] != b[0] {
            lemma_lt_asymmetric(a[0], b[0]);
        }
        let a1 = a.drop_first();
        let b1 = b.drop_first();
        assert(sorted_strict(a1)) by {
            assert forall|i: int, j: int| 0 <= i < j < a1.len() implies lt(
                #[trigger] a1[i],
                #[trigger] a1[j],
            ) by {
                assert(lt(a[i + 1], a[j + 1]));
            }
        }
        assert(sorted_strict(b1)) by {
            assert forall|i: int, j: int| 0 <= i < j < b1.len() implies lt(
                #[trigger] b1[i],
                #[trigger] b1[j],
            ) by {
                assert(lt(b[i + 1], b[j + 1]));
            }
        }
        assert(a1.to_set() =~= b1.to_set()) by {
            assert forall|x: Seq<char>| a1.to_set().contains(x) implies b1.to_set().contains(x) by {
                let k = choose|k: int| 0 <= k < a1.len() && a1[k] == x;
                assert(lt(a[0], a[k + 1]));
                assert(a.contains(x));
                assert(b.to_set().contains(x));
                let m = choose|m: int| 0 <= m < b.len() && b[m] == x;
                if m == 0 {
                    lemma_lt_irreflexive(x);
                }
                assert(b1[m - 1] == x);
            }
            assert forall|x: Seq<char>| b1.to_set().contains(x) implies a1.to_set().contains(x) by {
                let k = choose|k: int| 0 <= k < b1.len() && b1[k] == x;
                assert(lt(b[0], b[k + 1]));
                assert(b.contains(x));
                assert(a.to_set().contains(x));
                let m = choose|m: int| 0 <= m < a.len() && a[m] == x;
                if m == 0 {
                    lemma_lt_irreflexive(x);
                }
                assert(a1[m - 1] == x);
            }
        }
        lemma_sorted_unique(a1, b1);
        assert(a =~= seq![a[0]] + a1);
        assert(b =~= seq![b[0]] + b1);
    }
}

/// A strictly increasing enumeration of `set` is its `sorted_elements`.
pub proof fn lemma_sorted_elements(s: Seq<Seq<char>>, set: Set<Seq<char>>)
    requires
        sorted_strict(s),
        s.to_set() == set,
    ensures
        sorted_elements(set) == s,
{
    let t = sorted_elements(set);
    assert(sorted_strict(t) && t.to_set() == set);
    lemma_sorted_unique(s, t);
}

/// `a < b` on character sequences.
pub fn lt_exec(a: &[char], b: &[char]) -> (r: bool)
    ensures
        r == lt(a@, b@),
{
    let mut i: usize = 0;
    assert(a@.skip(0) =~= a@);
    assert(b@.skip(0) =~= b@);
    while i < a.len() && i < b.len() && a[i] == b[i]
        invariant
            i <= a.len(),
            i <= b.len(),
            lt(a@, b@) == lt(a@.skip(i as int), b@.skip(i as int)),
        decreases a.len() - i,
    {
        assert(a@.skip(i as int).drop_first() =~= a@.skip(i + 1));
        assert(b@.skip(i as int).drop_first() =~= b@.skip(i + 1));
        i = i + 1;
    }
    if i == a.len() {
        i < b.len()
    } else if i == b.len() {
        false
    } else {
        (a[i] as u32) < (b[i] as u32)
    }
}

pub open spec fn views(v: Seq<Vec<char>>) -> Seq<Seq<char>> {
    v.map_values(|x: Vec<char>| x@)
}

/// Adds `x` to a strictly increasing sequence, keeping it strictly increasing
/// (`BTreeSet::insert`).
pub fn insert_sorted(v: &mut Vec<Vec<char>>, x: Vec<char>)
    requires
        sorted_strict(views(old(v)@)),
    ensures
        sorted_strict(views(final(v)@)),
        views(final(v)@).to_set() == views(old(v)@).to_set().insert(x@),
{
    let ghost old_v = views(v@);
    let mut i: usize = 0;
    while i < v.len() && lt_exec(&v[i], &x)
        invariant
            v@ == old(v)@,
            i <= v.len(),
            forall|k: int| 0 <= k < i ==> lt(#[trigger] views(v@)[k], x@),
        decreases v.len() - i,
    {
        i = i + 1;
    }
    if i < v.len() && eq_chars(&v[i], &x) {
        assert(views(v@).to_set() =~= old_v.to_set().insert(x@)) by {
            assert(old_v[i as int] == x@);
        }
        return;
    }
    let ghost xv = x@;
    if i < v.len() {
        proof {
            lemma_lt_total(old_v[i as int], xv);
        }
    }
    v.insert(i, x);
    let ghost nv = views(v@);
    assert(nv =~= old_v.insert(i as int, xv));
    assert(sorted_strict(nv)) by {
        assert forall|a: int, b: int| 0 <= a < b < nv.len() implies lt(
            #[trigger] nv[a],
            #[trigger] nv[b],
        ) by {
            if b < i {
            } else if a < i && b == i {
            } else if a < i && b > i {
                assert(lt(old_v[a], xv));
                assert(lt(xv, old_v[i as int]));
                if b - 1 > i {
                    assert(lt(old_v[i as int], old_v[b - 1]));
                    lemma_lt_transitive(xv, old_v[i as int], old_v[b - 1]);
                }
                lemma_lt_transitive(old_v[a], xv, old_v[b - 1]);
            } else if a == i {
                if b - 1 > i {
                    assert(lt(old_v[i as int], old_v[b - 1]));
                    lemma_lt_transitive(xv, old_v[i as int], old_v[b - 1]);
                }
            } else {
                assert(lt(old_v[a - 1], old_v[b - 1]));
            }
        }
    }
    assert(nv.to_set() =~= old_v.to_set().insert(xv)) by {
        assert forall|y: Seq<char>| nv.to_set().contains(y) implies old_v.to_set().insert(
            xv,
        ).contains(y) by {
            let k = choose|k: int| 0 <= k < nv.len() && nv[k] == y;
            if k < i {
                assert(old_v[k] == y);
            } else if k > i {
                assert(old_v[k - 1] == y);
            }
        }
        assert forall|y: Seq<char>| old_v.to_set().insert(xv).contains(y) implies nv.to_set().contains(
            y,
        ) by {
            if y == xv {
                assert(nv[i as int] == y);
            } else {
                let k = choose|k: int| 0 <= k < old_v.len() && old_v[k] == y;
                if k < i {
                    assert(nv[k] == y);
                } else {
                    assert(nv[k + 1] == y);
                }
            }
        }
    }
}

} // verus!
