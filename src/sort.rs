//! Ordering items by a (group, text) key, with the item's own index breaking
//! ties, so that the order is total and the sorted result unique.
use vstd::prelude::*;
use crate::text::{seq_lt, lemma_seq_lt_irreflexive, lemma_seq_lt_asymmetric, lemma_seq_lt_total, lemma_seq_lt_transitive, str_lt};

verus! {

/// Item `a` sorts strictly before item `b`: by group, then by text, then by
/// index.
pub open spec fn key_lt(keys: Seq<(u8, Seq<char>)>, a: int, b: int) -> bool {
    keys[a].0 < keys[b].0 || (keys[a].0 == keys[b].0 && (seq_lt(keys[a].1, keys[b].1) || (
    keys[a].1 == keys[b].1 && a < b)))
}

/// The keys as the contracts see them.
pub open spec fn key_views(keys: Seq<(u8, String)>) -> Seq<(u8, Seq<char>)> {
    keys.map_values(|k: (u8, String)| (k.0, k.1@))
}

/// `o` lists items in strictly increasing key order.
pub open spec fn strictly_sorted(keys: Seq<(u8, Seq<char>)>, o: Seq<usize>) -> bool {
    forall|i: int, j: int| 0 <= i < j < o.len() ==> key_lt(keys, #[trigger] o[i] as int, #[trigger] o[j] as int)
}

pub proof fn lemma_key_lt_order(keys: Seq<(u8, Seq<char>)>, a: int, b: int, c: int)
    ensures
        !key_lt(keys, a, a),
        !(key_lt(keys, a, b) && key_lt(keys, b, a)),
        a != b ==> key_lt(keys, a, b) || key_lt(keys, b, a),
        key_lt(keys, a, b) && key_lt(keys, b, c) ==> key_lt(keys, a, c),
{
    lemma_seq_lt_irreflexive(keys[a].1);
    lemma_seq_lt_asymmetric(keys[a].1, keys[b].1);
    lemma_seq_lt_total(keys[a].1, keys[b].1);
    if seq_lt(keys[a].1, keys[b].1) && seq_lt(keys[b].1, keys[c].1) {
        lemma_seq_lt_transitive(keys[a].1, keys[b].1, keys[c].1);
    }
    if keys[a].1 == keys[b].1 {
        lemma_seq_lt_irreflexive(keys[a].1);
    }
}

fn key_less(keys: &Vec<(u8, String)>, a: usize, b: usize) -> (r: bool)
    requires
        a < keys.len(),
        b < keys.len(),
    ensures
        r == key_lt(key_views(keys@), a as int, b as int),
{
    let ka = &keys[a];
    let kb = &keys[b];
    assert(key_views(keys@)[a as int] == (ka.0, ka.1@));
    assert(key_views(keys@)[b as int] == (kb.0, kb.1@));
    if ka.0 != kb.0 {
        return ka.0 < kb.0;
    }
    if str_lt(ka.1.as_str(), kb.1.as_str()) {
        return true;
    }
    if str_lt(kb.1.as_str(), ka.1.as_str()) {
        return false;
    }
    proof {
        lemma_seq_lt_total(ka.1@, kb.1@);
        assert(key_views(keys@)[a as int] == (ka.0, ka.1@));
        assert(key_views(keys@)[b as int] == (kb.0, kb.1@));
    }
    a < b
}

/// The items in strictly increasing key order.
pub fn sort_indices(keys: &Vec<(u8, String)>, items: &Vec<usize>) -> (r: Vec<usize>)
    requires
        forall|i: int| 0 <= i < items.len() ==> items@[i] < keys.len(),
        items@.no_duplicates(),
    ensures
        strictly_sorted(key_views(keys@), r@),
        r@.to_set() == items@.to_set(),
        r.len() == items.len(),
{
    let mut out: Vec<usize> = Vec::new();
    let mut i: usize = 0;
    while i < items.len()
        invariant
            i <= items.len(),
            forall|k: int| 0 <= k < items.len() ==> items@[k] < keys.len(),
            items@.no_duplicates(),
            out.len() == i,
            strictly_sorted(key_views(keys@), out@),
            forall|x: usize| out@.contains(x) <==> items@.take(i as int).contains(x),
            forall|k: int| 0 <= k < out.len() ==> out@[k] < keys.len(),
        decreases items.len() - i,
    {
        let x = items[i];
        let mut j: usize = 0;
        while j < out.len() && !key_less(keys, x, out[j])
            invariant
                j <= out.len(),
                x < keys.len(),
                forall|k: int| 0 <= k < out.len() ==> out@[k] < keys.len(),
                forall|k: int| 0 <= k < j ==> !key_lt(key_views(keys@), x as int, #[trigger] out@[k] as int),
            decreases out.len() - j,
        {
            j = j + 1;
        }
        proof {
            assert(!out@.contains(x)) by {
                if out@.contains(x) {
                    assert(items@.take(i as int).contains(x));
                    let k = choose|k: int| 0 <= k < i && items@.take(i as int)[k] == x;
                    assert(items@[k] == items@[i as int]);
                }
            }
            assert forall|k: int| 0 <= k < j implies key_lt(key_views(keys@), #[trigger] out@[k] as int, x as int) by {
                lemma_key_lt_order(key_views(keys@), out@[k] as int, x as int, 0);
                assert(out@[k] != x);
            }
            assert forall|k: int| j <= k < out.len() implies key_lt(key_views(keys@), x as int, #[trigger] out@[k] as int) by {
                if k > j {
                    lemma_key_lt_order(key_views(keys@), x as int, out@[j as int] as int, out@[k] as int);
                }
            }
        }
        let ghost before = out@;
        let ghost t0 = items@.take(i as int);
        let ghost t1 = items@.take(i + 1);
        out.insert(j, x);
        proof {
            assert(out@ =~= before.take(j as int).push(x) + before.skip(j as int));
            assert forall|a: int, b: int| 0 <= a < b < out.len() implies key_lt(key_views(keys@), #[trigger] out@[a] as int, #[trigger] out@[b] as int) by {
                if a < j && b > j {
                    assert(out@[a] == before[a]);
                    assert(out@[b] == before[b - 1]);
                } else if a < j && b < j {
                    assert(out@[a] == before[a]);
                    assert(out@[b] == before[b]);
                } else if a > j {
                    assert(out@[a] == before[a - 1]);
                    assert(out@[b] == before[b - 1]);
                }
            }
            assert(t1 =~= t0.push(x));
            assert forall|y: usize| out@.contains(y) <==> t1.contains(y) by {
                if out@.contains(y) {
                    let k = choose|k: int| 0 <= k < out.len() && out@[k] == y;
                    if k < j {
                        assert(before[k] == y);
                    } else if k > j {
                        assert(before[k - 1] == y);
                    }
                    if y != x {
                        assert(before.contains(y));
                        assert(t0.contains(y));
                        let m = choose|m: int| 0 <= m < i && t0[m] == y;
                        assert(t1[m] == y);
                    } else {
                        assert(t1[i as int] == y);
                    }
                }
                if t1.contains(y) {
                    let m = choose|m: int| 0 <= m < i + 1 && t1[m] == y;
                    if m < i {
                        assert(t0[m] == y);
                        assert(before.contains(y));
                        let k = choose|k: int| 0 <= k < before.len() && before[k] == y;
                        if k < j {
                            assert(out@[k] == y);
                        } else {
                            assert(out@[k + 1] == y);
                        }
                    } else {
                        assert(out@[j as int] == y);
                    }
                }
            }
            assert forall|k: int| 0 <= k < out.len() implies out@[k] < keys.len() by {
                if k < j {
                    assert(out@[k] == before[k]);
                } else if k > j {
                    assert(out@[k] == before[k - 1]);
                }
            }
        }
        i = i + 1;
    }
    proof {
        assert(items@.take(i as int) =~= items@);
        assert(out@.to_set() =~= items@.to_set());
    }
    out
}

/// Two strictly sorted orders of the same items are the same order.
pub proof fn lemma_sorted_unique(keys: Seq<(u8, Seq<char>)>, o1: Seq<usize>, o2: Seq<usize>)
    requires
        strictly_sorted(keys, o1),
        strictly_sorted(keys, o2),
        o1.to_set() == o2.to_set(),
    ensures
        o1 == o2,
    decreases o1.len(),
{
    if o1.len() == 0 {
        if o2.len() > 0 {
            assert(o2.to_set().contains(o2[0]));
        }
        assert(o2.len() == 0);
        assert(o1 =~= o2);
    } else {
        assert(o1.to_set().contains(o1[0]));
        assert(o2.contains(o1[0]));
        let p = choose|p: int| 0 <= p < o2.len() && o2[p] == o1[0];
        assert(o2.to_set().contains(o2[0]));
        assert(o1.contains(o2[0]));
        let q = choose|q: int| 0 <= q < o1.len() && o1[q] == o2[0];
        lemma_key_lt_order(keys, o1[0] as int, o2[0] as int, 0);
        if p > 0 {
            assert(key_lt(keys, o2[0] as int, o2[p] as int));
            if q > 0 {
                assert(key_lt(keys, o1[0] as int, o1[q] as int));
            }
        }
        assert(p == 0);
        let r1 = o1.drop_first();
        let r2 = o2.drop_first();
        assert forall|i: int, j: int| 0 <= i < j < r1.len() implies key_lt(keys, #[trigger] r1[i] as int, #[trigger] r1[j] as int) by {
            assert(r1[i] == o1[i + 1] && r1[j] == o1[j + 1]);
        }
        assert forall|i: int, j: int| 0 <= i < j < r2.len() implies key_lt(keys, #[trigger] r2[i] as int, #[trigger] r2[j] as int) by {
            assert(r2[i] == o2[i + 1] && r2[j] == o2[j + 1]);
        }
        assert forall|x: usize| r1.to_set().contains(x) <==> r2.to_set().contains(x) by {
            if r1.contains(x) {
                let i = choose|i: int| 0 <= i < r1.len() && r1[i] == x;
                assert(o1[i + 1] == x);
                lemma_key_lt_order(keys, o1[0] as int, x as int, 0);
                assert(key_lt(keys, o1[0] as int, o1[i + 1] as int));
                assert(o1.contains(x));
                assert(o1.to_set().contains(x));
                let k = choose|k: int| 0 <= k < o2.len() && o2[k] == x;
                assert(k != 0);
                assert(r2[k - 1] == x);
            }
            if r2.contains(x) {
                let i = choose|i: int| 0 <= i < r2.len() && r2[i] == x;
                assert(o2[i + 1] == x);
                lemma_key_lt_order(keys, o2[0] as int, x as int, 0);
                assert(key_lt(keys, o2[0] as int, o2[i + 1] as int));
                assert(o2.contains(x));
                assert(o2.to_set().contains(x));
                let k = choose|k: int| 0 <= k < o1.len() && o1[k] == x;
                assert(k != 0);
                assert(r1[k - 1] == x);
            }
        }
        assert(r1.to_set() =~= r2.to_set());
        lemma_sorted_unique(keys, r1, r2);
        assert(o1.len() == r1.len() + 1 && o2.len() == r2.len() + 1);
        assert forall|i: int| 0 <= i < o1.len() implies o1[i] == o2[i] by {
            if i > 0 {
                assert(o1[i] == r1[i - 1] && o2[i] == r2[i - 1]);
            }
        }
        assert(o1 =~= o2);
    }
}

} // verus!
