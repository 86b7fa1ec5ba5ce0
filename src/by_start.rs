use vstd::prelude::*;

verus! {

/// `s` with `x` placed after every item whose start is not greater than its own.
pub open spec fn insert_by_start<V>(x: (usize, usize, V), s: Seq<(usize, usize, V)>) -> Seq<(usize, usize, V)>
    decreases s.len(),
{
    if s.len() == 0 {
        seq![x]
    } else if x.0 < s[0].0 {
        seq![x] + s
    } else {
        seq![s[0]] + insert_by_start(x, s.drop_first())
    }
}

/// The items of `s` in ascending start order; items with equal starts keep
/// their relative order.
pub open spec fn sorted_by_start<V>(s: Seq<(usize, usize, V)>) -> Seq<(usize, usize, V)>
    decreases s.len(),
{
    if s.len() == 0 {
        s
    } else {
        insert_by_start(s.last(), sorted_by_start(s.drop_last()))
    }
}

pub open spec fn starts_ascending<V>(s: Seq<(usize, usize, V)>) -> bool {
    forall|i: int, j: int| 0 <= i < j < s.len() ==> s[i].0 <= s[j].0
}

proof fn lemma_insert_keeps_items<V>(x: (usize, usize, V), s: Seq<(usize, usize, V)>)
    ensures
        insert_by_start(x, s).to_multiset() == s.to_multiset().insert(x),
        starts_ascending(s) ==> starts_ascending(insert_by_start(x, s)),
        insert_by_start(x, s).len() == s.len() + 1,
    decreases s.len(),
{
    broadcast use vstd::seq_lib::group_to_multiset_ensures;
    if s.len() == 0 {
        assert(seq![x] =~= Seq::<(usize, usize, V)>::empty().push(x));
    } else if x.0 < s[0].0 {
        assert(seq![x] + s =~= s.insert(0, x));
        vstd::seq_lib::to_multiset_insert(s, 0, x);
    } else {
        let t = s.drop_first();
        lemma_insert_keeps_items(x, t);
        let u = insert_by_start(x, t);
        assert(s =~= seq![s[0]] + t);
        assert((seq![s[0]] + u).to_multiset() =~= u.to_multiset().insert(s[0])) by {
            assert(seq![s[0]] + u =~= u.insert(0, s[0]));
            vstd::seq_lib::to_multiset_insert(u, 0, s[0]);
        }
        assert(s.to_multiset() =~= t.to_multiset().insert(s[0])) by {
            assert(s =~= t.insert(0, s[0]));
            vstd::seq_lib::to_multiset_insert(t, 0, s[0]);
        }
        if starts_ascending(s) {
            assert(starts_ascending(t));
            let r = seq![s[0]] + u;
            assert forall|i: int, j: int| 0 <= i < j < r.len() implies r[i].0 <= r[j].0 by {
                if i > 0 {
                    assert(r[i] == u[i - 1] && r[j] == u[j - 1]);
                } else {
                    assert(u.to_multiset().contains(r[j]));
                    assert(u.contains(r[j]));
                    if r[j] != x {
                        assert(t.to_multiset().contains(r[j]));
                        assert(t.contains(r[j]));
                        let k = choose|k: int| 0 <= k < t.len() && t[k] == r[j];
                        assert(s[k + 1] == t[k]);
                    }
                }
            }
        }
    }
}

pub proof fn lemma_sorted_keeps_items<V>(s: Seq<(usize, usize, V)>)
    ensures
        sorted_by_start(s).to_multiset() == s.to_multiset(),
        starts_ascending(sorted_by_start(s)),
        sorted_by_start(s).len() == s.len(),
    decreases s.len(),
{
    broadcast use vstd::seq_lib::group_to_multiset_ensures;
    if s.len() > 0 {
        lemma_sorted_keeps_items(s.drop_last());
        lemma_insert_keeps_items(s.last(), sorted_by_start(s.drop_last()));
        assert(s =~= s.drop_last().push(s.last()));
    }
}

/// Sorts triples by their first component, keeping the order of equal ones.
pub fn sort_by_start<V: Copy>(items: &Vec<(usize, usize, V)>) -> (r: Vec<(usize, usize, V)>)
    ensures
        r@ == sorted_by_start(items@),
        r@.to_multiset() == items@.to_multiset(),
        starts_ascending(r@),
{
    let mut r: Vec<(usize, usize, V)> = Vec::new();
    let mut i: usize = 0;
    while i < items.len()
        invariant
            i <= items.len(),
            r@ == sorted_by_start(items@.take(i as int)),
        decreases items.len() - i,
    {
        let x = items[i];
        let mut p: usize = 0;
        assert(r@.skip(0) =~= r@);
        assert(r@.take(0) + insert_by_start(x, r@) =~= insert_by_start(x, r@));
        while p < r.len() && r[p].0 <= x.0
            invariant
                p <= r.len(),
                insert_by_start(x, r@) == r@.take(p as int) + insert_by_start(x, r@.skip(p as int)),
            decreases r.len() - p,
        {
            proof {
                let rest = r@.skip(p as int);
                assert(rest.drop_first() =~= r@.skip(p as int + 1));
                assert(r@.take(p as int) + seq![r@[p as int]] =~= r@.take(p as int + 1));
                assert(r@.take(p as int) + insert_by_start(x, rest) =~= r@.take(p as int + 1)
                    + insert_by_start(x, r@.skip(p as int + 1)));
            }
            p += 1;
        }
        proof {
            let rest = r@.skip(p as int);
            if p < r.len() {
                assert(insert_by_start(x, rest) == seq![x] + rest);
            } else {
                assert(rest.len() == 0);
            }
            assert(r@.insert(p as int, x) =~= r@.take(p as int) + insert_by_start(x, rest));
            assert(items@.take(i as int + 1).drop_last() =~= items@.take(i as int));
            assert(items@.take(i as int + 1).last() == x);
        }
        r.insert(p, x);
        i += 1;
    }
    proof {
        assert(items@.take(items@.len() as int) =~= items@);
        lemma_sorted_keeps_items(items@);
    }
    r
}

} // verus!
