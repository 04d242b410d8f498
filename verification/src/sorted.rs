//! Ordered sets of texts, kept as strictly increasing vectors.
use vstd::prelude::*;
use crate::text::{
    lemma_text_lt_asymmetric, lemma_text_lt_irreflexive, lemma_text_lt_total,
    lemma_text_lt_transitive, string_order, text_lt, TextOrder,
};
use crate::toml::{lemma_string_views_push, string_views};

verus! {

/// Each text is smaller than every later one.
pub open spec fn strictly_sorted(s: Seq<Seq<char>>) -> bool {
    forall|i: int, j: int| 0 <= i < j < s.len() ==> text_lt(#[trigger] s[i], #[trigger] s[j])
}

/// Two strictly sorted sequences with the same elements are equal.
pub proof fn lemma_sorted_unique(a: Seq<Seq<char>>, b: Seq<Seq<char>>)
    requires
        strictly_sorted(a),
        strictly_sorted(b),
        a.to_set() == b.to_set(),
    ensures
        a == b,
    decreases a.len() + b.len(),
{
    if a.len() == 0 || b.len() == 0 {
        if a.len() > 0 {
            assert(a.to_set().contains(a[0]));
        }
        if b.len() > 0 {
            assert(b.to_set().contains(b[0]));
        }
        assert(a =~= b);
    } else {
        // the first elements are the minima of the same set
        assert(a.to_set().contains(a[0]));
        assert(b.to_set().contains(b[0]));
        let ia = choose|i: int| 0 <= i < b.len() && b[i] == a[0];
        let ib = choose|i: int| 0 <= i < a.len() && a[i] == b[0];
        if ia > 0 {
            assert(text_lt(b[0], b[ia]));
            if ib > 0 {
                assert(text_lt(a[0], a[ib]));
                lemma_text_lt_asymmetric(b[0], a[0]);
            } else {
                lemma_text_lt_irreflexive(b[0]);
            }
        }
        assert(a[0] == b[0]);
        let ta = a.drop_first();
        let tb = b.drop_first();
        assert forall|x: Seq<char>| ta.to_set().contains(x) implies tb.to_set().contains(x) by {
            let i = choose|i: int| 0 <= i < ta.len() && ta[i] == x;
            assert(a[i + 1] == x);
            assert(b.to_set().contains(x));
            let j = choose|j: int| 0 <= j < b.len() && b[j] == x;
            if j == 0 {
                assert(text_lt(a[0], a[i + 1]));
                lemma_text_lt_irreflexive(x);
            }
            assert(tb[j - 1] == x);
        }
        assert forall|x: Seq<char>| tb.to_set().contains(x) implies ta.to_set().contains(x) by {
            let i = choose|i: int| 0 <= i < tb.len() && tb[i] == x;
            assert(b[i + 1] == x);
            assert(a.to_set().contains(x));
            let j = choose|j: int| 0 <= j < a.len() && a[j] == x;
            if j == 0 {
                assert(text_lt(b[0], b[i + 1]));
                lemma_text_lt_irreflexive(x);
            }
            assert(ta[j - 1] == x);
        }
        assert(ta.to_set() =~= tb.to_set());
        lemma_sorted_unique(ta, tb);
        assert(a =~= seq![a[0]] + ta);
        assert(b =~= seq![b[0]] + tb);
    }
}

/// Each element of `s` comes before every later one under `lt`.
pub open spec fn sorted_by<A>(s: Seq<A>, lt: spec_fn(A, A) -> bool) -> bool {
    forall|i: int, j: int| 0 <= i < j < s.len() ==> lt(#[trigger] s[i], #[trigger] s[j])
}

/// `lt` is a strict order: irreflexive and transitive.
pub open spec fn strict_order<A>(lt: spec_fn(A, A) -> bool) -> bool {
    &&& forall|x: A| !#[trigger] lt(x, x)
    &&& forall|x: A, y: A, z: A| #[trigger] lt(x, y) && #[trigger] lt(y, z) ==> lt(x, z)
}

/// Under a strict order, two sorted sequences with the same elements are equal.
pub proof fn lemma_sorted_by_unique<A>(a: Seq<A>, b: Seq<A>, lt: spec_fn(A, A) -> bool)
    requires
        strict_order(lt),
        sorted_by(a, lt),
        sorted_by(b, lt),
        a.to_set() == b.to_set(),
    ensures
        a == b,
    decreases a.len() + b.len(),
{
    if a.len() == 0 || b.len() == 0 {
        if a.len() > 0 {
            assert(a.to_set().contains(a[0]));
        }
        if b.len() > 0 {
            assert(b.to_set().contains(b[0]));
        }
        assert(a =~= b);
    } else {
        assert(a.to_set().contains(a[0]));
        assert(b.to_set().contains(b[0]));
        let ia = choose|i: int| 0 <= i < b.len() && b[i] == a[0];
        let ib = choose|i: int| 0 <= i < a.len() && a[i] == b[0];
        if ia > 0 {
            assert(lt(b[0], b[ia]));
            if ib > 0 {
                assert(lt(a[0], a[ib]));
                assert(lt(a[0], a[0]));
            }
        }
        assert(a[0] == b[0]);
        let ta = a.drop_first();
        let tb = b.drop_first();
        assert forall|x: A| ta.to_set().contains(x) implies tb.to_set().contains(x) by {
            let i = choose|i: int| 0 <= i < ta.len() && ta[i] == x;
            assert(a[i + 1] == x);
            assert(b.to_set().contains(x));
            let j = choose|j: int| 0 <= j < b.len() && b[j] == x;
            if j == 0 {
                assert(lt(a[0], a[i + 1]));
            }
            assert(tb[j - 1] == x);
        }
        assert forall|x: A| tb.to_set().contains(x) implies ta.to_set().contains(x) by {
            let i = choose|i: int| 0 <= i < tb.len() && tb[i] == x;
            assert(b[i + 1] == x);
            assert(a.to_set().contains(x));
            let j = choose|j: int| 0 <= j < a.len() && a[j] == x;
            if j == 0 {
                assert(lt(b[0], b[i + 1]));
            }
            assert(ta[j - 1] == x);
        }
        assert(ta.to_set() =~= tb.to_set());
        lemma_sorted_by_unique(ta, tb, lt);
        assert(a =~= seq![a[0]] + ta);
        assert(b =~= seq![b[0]] + tb);
    }
}

/// Inserting `x` where the elements before it come before `x` and the ones
/// after it come after `x` keeps a sequence sorted.
pub proof fn lemma_insert_sorted_by<A>(q: Seq<A>, p: int, x: A, lt: spec_fn(A, A) -> bool)
    requires
        sorted_by(q, lt),
        0 <= p <= q.len(),
        forall|k: int| 0 <= k < p ==> lt(#[trigger] q[k], x),
        forall|k: int| p <= k < q.len() ==> lt(x, #[trigger] q[k]),
    ensures
        sorted_by(q.insert(p, x), lt),
        q.insert(p, x).to_set() == q.to_set().insert(x),
{
    let nq = q.insert(p, x);
    assert forall|a: int, b: int| 0 <= a < b < nq.len() implies lt(#[trigger] nq[a], #[trigger] nq[b]) by {
        if a < p && b < p {
        } else if a < p && b == p {
        } else if a < p && b > p {
            assert(nq[b] == q[b - 1]);
        } else if a == p {
            assert(nq[b] == q[b - 1]);
        } else {
            assert(nq[a] == q[a - 1]);
            assert(nq[b] == q[b - 1]);
        }
    }
    assert forall|y: A| nq.to_set().contains(y) == q.to_set().insert(x).contains(y) by {
        if nq.to_set().contains(y) {
            let k = choose|k: int| 0 <= k < nq.len() && nq[k] == y;
            if k < p {
                assert(q[k] == y);
            } else if k > p {
                assert(q[k - 1] == y);
            }
        }
        if q.to_set().contains(y) {
            let k = choose|k: int| 0 <= k < q.len() && q[k] == y;
            if k < p {
                assert(nq[k] == y);
            } else {
                assert(nq[k + 1] == y);
            }
        }
        if y == x {
            assert(nq[p] == y);
        }
    }
    assert(nq.to_set() =~= q.to_set().insert(x));
}

pub proof fn lemma_to_set_cons<A>(x: A, s: Seq<A>)
    ensures
        (seq![x] + s).to_set() == s.to_set().insert(x),
{
    let t = seq![x] + s;
    assert forall|y: A| t.to_set().contains(y) == s.to_set().insert(x).contains(y) by {
        if t.to_set().contains(y) {
            let k = choose|k: int| 0 <= k < t.len() && t[k] == y;
            if k > 0 {
                assert(s[k - 1] == y);
            }
        }
        if s.to_set().contains(y) {
            let k = choose|k: int| 0 <= k < s.len() && s[k] == y;
            assert(t[k + 1] == y);
        }
        if y == x {
            assert(t[0] == y);
        }
    }
    assert(t.to_set() =~= s.to_set().insert(x));
}

/// Inserts `item` into the strictly sorted `set` unless it is already there.
pub fn insert_sorted(set: &mut Vec<String>, item: String)
    requires
        strictly_sorted(string_views(old(set)@)),
    ensures
        strictly_sorted(string_views(final(set)@)),
        string_views(final(set)@).to_set() == string_views(old(set)@).to_set().insert(item@),
{
    let ghost old_v = string_views(set@);
    let mut i: usize = 0;
    let mut stop = false;
    while i < set.len() && !stop
        invariant
            i <= set@.len(),
            string_views(set@) == old_v,
            strictly_sorted(old_v),
            forall|k: int| 0 <= k < i ==> text_lt(#[trigger] old_v[k], item@),
            stop ==> i < old_v.len() && text_lt(item@, old_v[i as int]),
        decreases set@.len() - i, if stop { 0int } else { 1int },
    {
        let o = string_order(&set[i], &item);
        if o == TextOrder::Equal {
            assert(old_v[i as int] == item@);
            assert(old_v.to_set().insert(item@) =~= old_v.to_set());
            return;
        } else if o == TextOrder::Greater {
            stop = true;
        } else {
            i += 1;
        }
    }
    let ghost pos = i as int;
    proof {
        assert forall|k: int| pos <= k < old_v.len() implies text_lt(item@, #[trigger] old_v[k]) by {
            assert(text_lt(item@, old_v[pos]));
            if k > pos {
                lemma_text_lt_transitive(item@, old_v[pos], old_v[k]);
            }
        }
    }
    set.insert(i, item);
    proof {
        let nv = string_views(set@);
        assert(nv =~= old_v.insert(pos, item@));
        assert forall|a: int, b: int| 0 <= a < b < nv.len() implies text_lt(
            #[trigger] nv[a],
            #[trigger] nv[b],
        ) by {
            if a < pos && b < pos {
            } else if a < pos && b == pos {
            } else if a < pos && b > pos {
                assert(nv[b] == old_v[b - 1]);
            } else if a == pos {
                assert(nv[b] == old_v[b - 1]);
            } else {
                assert(nv[a] == old_v[a - 1]);
                assert(nv[b] == old_v[b - 1]);
            }
        }
        assert forall|x: Seq<char>| nv.to_set().contains(x) == old_v.to_set().insert(
            item@,
        ).contains(x) by {
            if nv.to_set().contains(x) {
                let k = choose|k: int| 0 <= k < nv.len() && nv[k] == x;
                if k < pos {
                    assert(old_v[k] == x);
                } else if k > pos {
                    assert(old_v[k - 1] == x);
                }
            }
            if old_v.to_set().contains(x) {
                let k = choose|k: int| 0 <= k < old_v.len() && old_v[k] == x;
                if k < pos {
                    assert(nv[k] == x);
                } else {
                    assert(nv[k + 1] == x);
                }
            }
            if x == item@ {
                assert(nv[pos] == x);
            }
        }
        assert(nv.to_set() =~= old_v.to_set().insert(item@));
    }
}

/// The distinct texts of `items`, in increasing order.
pub fn sorted_set(items: Vec<String>) -> (r: Vec<String>)
    ensures
        strictly_sorted(string_views(r@)),
        string_views(r@).to_set() == string_views(items@).to_set(),
{
    let mut out: Vec<String> = Vec::new();
    let mut rest = items;
    let ghost all = string_views(rest@);
    // take the items from the back; the set does not depend on the order
    assert(string_views(out@).to_set() =~= Set::<Seq<char>>::empty());
    while rest.len() > 0
        invariant
            strictly_sorted(string_views(out@)),
            rest@.len() <= all.len(),
            string_views(rest@) == all.take(rest@.len() as int),
            string_views(out@).to_set() == all.skip(rest@.len() as int).to_set(),
        decreases rest@.len(),
    {
        let ghost len = rest@.len() as int;
        let ghost old_rest = rest@;
        let item = rest.pop().unwrap();
        proof {
            assert(string_views(rest@) =~= all.take(len - 1));
            assert(string_views(old_rest)[len - 1] == old_rest[len - 1]@);
            assert(all.take(len)[len - 1] == all[len - 1]);
            assert(item@ == all[len - 1]);
            assert(all.skip(len - 1) =~= seq![all[len - 1]] + all.skip(len));
            lemma_to_set_cons(all[len - 1], all.skip(len));
        }
        insert_sorted(&mut out, item);
    }
    assert(all.skip(0) =~= all);
    out
}

/// Whether the strictly sorted `set` holds `item`.
pub fn sorted_contains(set: &Vec<String>, item: &String) -> (r: bool)
    ensures
        r == string_views(set@).contains(item@),
{
    let mut i: usize = 0;
    while i < set.len()
        invariant
            i <= set@.len(),
            forall|k: int| 0 <= k < i ==> string_views(set@)[k] != item@,
        decreases set@.len() - i,
    {
        if string_order(&set[i], item) == TextOrder::Equal {
            assert(string_views(set@)[i as int] == item@);
            return true;
        }
        i += 1;
    }
    false
}

} // verus!
