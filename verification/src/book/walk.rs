//! Price-ordered walks over the levels of a side: the sorted price sequence, and a copy-out of
//! each level's price and total in ascending price order.
use std::collections::BTreeMap;

use vstd::prelude::*;
use vstd::std_specs::btree::{increasing_seq, spec_btree_map_iter};
use vstd::std_specs::cmp::OrdSpec;
use vstd::std_specs::iter::IteratorSpec;

use crate::book::levels::Level;
use crate::domain::Qty;

verus! {

/// Every element is smaller than every later one.
pub open spec fn strictly_increasing(s: Seq<u64>) -> bool {
    forall|i: int, j: int| 0 <= i < j < s.len() ==> s[i] < s[j]
}

/// The prices of a finite set in ascending order.
pub open spec fn sorted_prices(d: Set<u64>) -> Seq<u64> {
    choose|s: Seq<u64>| strictly_increasing(s) && s.to_set() == d
}

/// Two ascending sequences with the same elements are the same sequence.
pub proof fn lemma_sorted_unique(s1: Seq<u64>, s2: Seq<u64>)
    requires
        strictly_increasing(s1),
        strictly_increasing(s2),
        s1.to_set() == s2.to_set(),
    ensures
        s1 == s2,
    decreases s1.len(),
{
    if s1.len() == 0 {
        if s2.len() > 0 {
            assert(s2.to_set().contains(s2[0]));
            assert(!s1.contains(s2[0]));
        }
        assert(s1 =~= s2);
    } else {
        if s2.len() == 0 {
            assert(s1.to_set().contains(s1[0]));
            assert(!s2.contains(s1[0]));
        }
        assert(s1.to_set().contains(s1[0]));
        assert(s2.contains(s1[0]));
        assert(s2.to_set().contains(s2[0]));
        assert(s1.contains(s2[0]));
        let i1 = choose|i: int| 0 <= i < s2.len() && s2[i] == s1[0];
        let i2 = choose|i: int| 0 <= i < s1.len() && s1[i] == s2[0];
        assert(s1[0] == s2[0]) by {
            if i1 > 0 {
                assert(s2[0] < s2[i1]);
            }
            if i2 > 0 {
                assert(s1[0] < s1[i2]);
            }
        }
        let t1 = s1.drop_first();
        let t2 = s2.drop_first();
        assert forall|x: u64| t1.to_set().contains(x) <==> t2.to_set().contains(x) by {
            if t1.contains(x) {
                let i = choose|i: int| 0 <= i < t1.len() && t1[i] == x;
                assert(s1[i + 1] == x);
                assert(s1.contains(x));
                assert(s2.to_set().contains(x));
                let j = choose|j: int| 0 <= j < s2.len() && s2[j] == x;
                assert(x != s1[0]);
                assert(j > 0);
                assert(t2[j - 1] == x);
            }
            if t2.contains(x) {
                let i = choose|i: int| 0 <= i < t2.len() && t2[i] == x;
                assert(s2[i + 1] == x);
                assert(s2.contains(x));
                assert(s1.to_set().contains(x));
                let j = choose|j: int| 0 <= j < s1.len() && s1[j] == x;
                assert(x != s2[0]);
                assert(j > 0);
                assert(t1[j - 1] == x);
            }
        }
        assert(t1.to_set() =~= t2.to_set());
        lemma_sorted_unique(t1, t2);
        assert(s1.len() == s2.len());
        assert forall|i: int| 0 <= i < s1.len() implies s1[i] == s2[i] by {
            if i > 0 {
                assert(s1[i] == t1[i - 1]);
                assert(s2[i] == t2[i - 1]);
            }
        }
        assert(s1 =~= s2);
    }
}

/// An ascending enumeration of `d` is its sorted sequence.
pub proof fn lemma_is_sorted_prices(s: Seq<u64>, d: Set<u64>)
    requires
        strictly_increasing(s),
        s.to_set() == d,
    ensures
        sorted_prices(d) == s,
{
    let c = sorted_prices(d);
    assert(strictly_increasing(c) && c.to_set() == d);
    lemma_sorted_unique(c, s);
}

/// The keys a `BTreeMap` iterator yields rise strictly.
pub proof fn lemma_increasing_is_strict(s: Seq<u64>)
    requires
        increasing_seq(s),
    ensures
        strictly_increasing(s),
{
    assert forall|i: int, j: int| 0 <= i < j < s.len() implies s[i] < s[j] by {
        assert(s[i].cmp_spec(&s[j]) is Less);
    }
}

/// Each level's price and total, in ascending price order.
pub fn ascending_levels(m: &BTreeMap<u64, Level>) -> (r: Vec<(u64, Qty)>)
    ensures
        r@.len() == sorted_prices(m@.dom()).len(),
        forall|i: int|
            #![trigger r@[i]]
            0 <= i < r@.len() ==> {
                &&& r@[i].0 == sorted_prices(m@.dom())[i]
                &&& m@.contains_key(r@[i].0)
                &&& r@[i].1 == m@[r@[i].0].total
            },
{
    let mut r: Vec<(u64, Qty)> = Vec::new();
    let ghost m0 = m@;
    let ghost full = spec_btree_map_iter(m).remaining();
    for kv in it: m.iter()
        invariant
            m@ == m0,
            it.seq() == full,
            r@.len() == it.index(),
            increasing_seq(full.map_values(|kv: (&u64, &Level)| *kv.0)),
            forall|j: int|
                #![trigger r@[j]]
                0 <= j < r@.len() ==> {
                    &&& r@[j].0 == *full[j].0
                    &&& m@.contains_key(r@[j].0)
                    &&& r@[j].1 == m@[r@[j].0].total
                },
    {
        let (k, v) = kv;
        proof {
            assert(full[it.index() as int] == kv);
            assert(m@.contains_key(*k));
        }
        r.push((*k, v.total));
    }
    proof {
        let ks = full.map_values(|kv: (&u64, &Level)| *kv.0);
        assert(r@.len() == full.len());
        lemma_increasing_is_strict(ks);
        assert(full.len() == m@.dom().len());
        assert forall|x: u64| ks.to_set().contains(x) <==> m@.dom().contains(x) by {
            if ks.contains(x) {
                let i = choose|i: int| 0 <= i < ks.len() && ks[i] == x;
                assert(ks[i] == *full[i].0);
                assert(m@.contains_key(*full[i].0));
            }
            if m@.contains_key(x) {
                assert(full.contains((&x, &m@[x])));
                let i = choose|i: int| 0 <= i < full.len() && full[i] == (&x, &m@[x]);
                assert(ks[i] == x);
            }
        }
        assert(ks.to_set() =~= m@.dom());
        lemma_is_sorted_prices(ks, m@.dom());
        assert forall|i: int| 0 <= i < r@.len() implies #[trigger] r@[i].0 == ks[i] by {}
    }
    r
}

} // verus!
