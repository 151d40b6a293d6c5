//! Weights summed by key, and the keys of largest weight.
use vstd::prelude::*;

verus! {

/// The sum of the weights of the entries with key `k`.
pub open spec fn key_weight(e: Seq<(u64, u64)>, k: u64) -> nat
    decreases e.len(),
{
    if e.len() == 0 {
        0
    } else {
        key_weight(e.drop_last(), k) + if e.last().0 == k { e.last().1 as nat } else { 0 }
    }
}

/// The sum of all weights.
pub open spec fn total_weight(e: Seq<(u64, u64)>) -> nat
    decreases e.len(),
{
    if e.len() == 0 {
        0
    } else {
        total_weight(e.drop_last()) + e.last().1 as nat
    }
}

/// Whether some entry has key `k`.
pub open spec fn has_key(e: Seq<(u64, u64)>, k: u64) -> bool {
    exists|i: int| 0 <= i < e.len() && #[trigger] e[i].0 == k
}

/// Whether no two entries share a key.
pub open spec fn keys_distinct(e: Seq<(u64, u64)>) -> bool {
    forall|i: int, j: int| 0 <= i < j < e.len() ==> #[trigger] e[i].0 != #[trigger] e[j].0
}

/// Whether `t` sums the weights of `e` by key: one entry per key of `e`,
/// holding that key's summed weight.
pub open spec fn is_tally(e: Seq<(u64, u64)>, t: Seq<(u64, u64)>) -> bool {
    &&& keys_distinct(t)
    &&& forall|i: int| 0 <= i < t.len() ==> has_key(e, #[trigger] t[i].0) && t[i].1 == key_weight(e, t[i].0)
    &&& forall|k: u64| has_key(e, k) ==> #[trigger] has_key(t, k)
}

/// Whether `top` lists at most `n` keys of `e` with their summed weights,
/// heaviest first, such that no key left out weighs more than a listed one,
/// and fewer than `n` only when every key is listed.
pub open spec fn is_top(e: Seq<(u64, u64)>, top: Seq<(u64, u64)>, n: nat) -> bool {
    &&& top.len() <= n
    &&& keys_distinct(top)
    &&& forall|i: int| 0 <= i < top.len() ==> has_key(e, #[trigger] top[i].0) && top[i].1 == key_weight(e, top[i].0)
    &&& forall|i: int, j: int| 0 <= i < j < top.len() ==> #[trigger] top[i].1 >= #[trigger] top[j].1
    &&& forall|k: u64, i: int| has_key(e, k) && !has_key(top, k) && 0 <= i < top.len() ==> #[trigger] key_weight(e, k) <= #[trigger] top[i].1
    &&& top.len() < n ==> forall|k: u64| has_key(e, k) ==> #[trigger] has_key(top, k)
}

pub proof fn lemma_key_weight_le_total(e: Seq<(u64, u64)>, k: u64)
    ensures
        key_weight(e, k) <= total_weight(e),
    decreases e.len(),
{
    if e.len() > 0 {
        lemma_key_weight_le_total(e.drop_last(), k);
    }
}

proof fn lemma_key_weight_zero(e: Seq<(u64, u64)>, k: u64)
    requires
        !has_key(e, k),
    ensures
        key_weight(e, k) == 0,
    decreases e.len(),
{
    if e.len() > 0 {
        assert(!has_key(e.drop_last(), k)) by {
            if has_key(e.drop_last(), k) {
                let i = choose|i: int| 0 <= i < e.drop_last().len() && #[trigger] e.drop_last()[i].0 == k;
                assert(e[i].0 == k);
            }
        }
        assert(e.last().0 != k) by {
            if e.last().0 == k {
                assert(e[e.len() - 1].0 == k);
            }
        }
        lemma_key_weight_zero(e.drop_last(), k);
    }
}

/// Sums the weights of `e` by key; the keys come in the order of their first
/// entry.
pub fn tally(e: &Vec<(u64, u64)>) -> (t: Vec<(u64, u64)>)
    requires
        total_weight(e@) <= u64::MAX,
    ensures
        is_tally(e@, t@),
        t@.len() <= e@.len(),
{
    let mut t: Vec<(u64, u64)> = Vec::new();
    let mut i: usize = 0;
    while i < e.len()
        invariant
            i <= e@.len(),
            total_weight(e@) <= u64::MAX,
            t@.len() <= i,
            is_tally(e@.subrange(0, i as int), t@),
        decreases e@.len() - i,
    {
        let ghost pre = e@.subrange(0, i as int);
        let ghost next = e@.subrange(0, i + 1);
        let (k, w) = e[i];
        proof {
            assert(next.drop_last() =~= pre);
            assert(next.last() == (k, w));
            assert forall|kk: u64| #[trigger] key_weight(next, kk) == key_weight(pre, kk) + if kk == k { w as nat } else { 0 } by {}
            lemma_key_weight_le_total(next, k);
            lemma_total_prefix(e@, i + 1);
            assert forall|kk: u64| has_key(pre, kk) implies #[trigger] has_key(next, kk) by {
                let x = choose|x: int| 0 <= x < pre.len() && #[trigger] pre[x].0 == kk;
                assert(next[x].0 == kk);
            }
            assert(has_key(next, k)) by {
                assert(next[i as int].0 == k);
            }
        }
        let mut j: usize = 0;
        while j < t.len() && t[j].0 != k
            invariant
                j <= t@.len(),
                forall|x: int| 0 <= x < j ==> t@[x].0 != k,
            decreases t@.len() - j,
        {
            j = j + 1;
        }
        let found = j < t.len();
        if found {
            let (k0, w0) = t[j];
            let ghost old_t = t@;
            proof {
                assert(w0 == key_weight(pre, k));
                assert(w0 + w == key_weight(next, k));
            }
            t.set(j, (k0, w0 + w));
            proof {
                assert forall|x: int, y: int| 0 <= x < y < t@.len() implies #[trigger] t@[x].0 != #[trigger] t@[y].0 by {
                    assert(old_t[x].0 != old_t[y].0);
                }
                assert forall|x: int| 0 <= x < t@.len() implies has_key(next, #[trigger] t@[x].0) && t@[x].1 == key_weight(next, t@[x].0) by {
                    if x != j {
                        assert(t@[x].0 != k);
                    }
                }
                assert forall|kk: u64| has_key(next, kk) implies #[trigger] has_key(t@, kk) by {
                    if kk == k {
                        assert(t@[j as int].0 == k);
                    } else {
                        let x = choose|x: int| 0 <= x < next.len() && #[trigger] next[x].0 == kk;
                        assert(x < i);
                        assert(pre[x].0 == kk);
                        assert(has_key(pre, kk));
                        assert(has_key(old_t, kk));
                        let y = choose|y: int| 0 <= y < old_t.len() && #[trigger] old_t[y].0 == kk;
                        assert(t@[y].0 == kk);
                    }
                }
            }
        } else {
            proof {
                assert(!has_key(t@, k)) by {
                    if has_key(t@, k) {
                        let x = choose|x: int| 0 <= x < t@.len() && #[trigger] t@[x].0 == k;
                    }
                }
                assert(!has_key(pre, k));
                lemma_key_weight_zero(pre, k);
            }
            let ghost old_t = t@;
            t.push((k, w));
            proof {
                assert forall|x: int, y: int| 0 <= x < y < t@.len() implies #[trigger] t@[x].0 != #[trigger] t@[y].0 by {
                    if y == t@.len() - 1 {
                        assert(old_t[x].0 != k);
                    } else {
                        assert(old_t[x].0 != old_t[y].0);
                    }
                }
                assert forall|x: int| 0 <= x < t@.len() implies has_key(next, #[trigger] t@[x].0) && t@[x].1 == key_weight(next, t@[x].0) by {
                    if x < t@.len() - 1 {
                        assert(old_t[x].0 != k);
                        assert(has_key(pre, old_t[x].0));
                    }
                }
                assert forall|kk: u64| has_key(next, kk) implies #[trigger] has_key(t@, kk) by {
                    if kk == k {
                        assert(t@[t@.len() - 1].0 == k);
                    } else {
                        let x = choose|x: int| 0 <= x < next.len() && #[trigger] next[x].0 == kk;
                        assert(x < i);
                        assert(pre[x].0 == kk);
                        assert(has_key(pre, kk));
                        assert(has_key(old_t, kk));
                        let y = choose|y: int| 0 <= y < old_t.len() && #[trigger] old_t[y].0 == kk;
                        assert(t@[y].0 == kk);
                    }
                }
            }
        }
        proof {
            assert(is_tally(next, t@));
        }
        i = i + 1;
    }
    proof {
        assert(e@.subrange(0, e@.len() as int) =~= e@);
    }
    t
}

proof fn lemma_total_prefix(e: Seq<(u64, u64)>, n: int)
    requires
        0 <= n <= e.len(),
    ensures
        total_weight(e.subrange(0, n)) <= total_weight(e),
    decreases e.len() - n,
{
    if n < e.len() {
        lemma_total_prefix(e, n + 1);
        assert(e.subrange(0, n + 1).drop_last() =~= e.subrange(0, n));
    } else {
        assert(e.subrange(0, n) =~= e);
    }
}

/// Whether `top` holds the `n` heaviest entries of the table `t` (all of
/// them if there are fewer), heaviest first.
pub open spec fn is_top_of(t: Seq<(u64, u64)>, top: Seq<(u64, u64)>, n: nat) -> bool {
    &&& top.len() == if t.len() < n { t.len() } else { n }
    &&& keys_distinct(top)
    &&& forall|i: int| 0 <= i < top.len() ==> t.contains(#[trigger] top[i])
    &&& forall|i: int, j: int| 0 <= i < j < top.len() ==> #[trigger] top[i].1 >= #[trigger] top[j].1
    &&& forall|x: (u64, u64), i: int| t.contains(x) && !has_key(top, x.0) && 0 <= i < top.len() ==> #[trigger] x.1 <= #[trigger] top[i].1
    &&& top.len() < n ==> forall|x: (u64, u64)| t.contains(x) ==> #[trigger] top.contains(x)
}

/// The `n` heaviest entries of a table with distinct keys, heaviest first;
/// of entries that weigh the same, the earlier comes first.
pub fn top_entries(t: &Vec<(u64, u64)>, n: usize) -> (r: Vec<(u64, u64)>)
    requires
        keys_distinct(t@),
    ensures
        is_top_of(t@, r@, n as nat),
{
    let mut chosen: Vec<(u64, u64)> = Vec::new();
    let mut rest: Vec<(u64, u64)> = Vec::new();
    let mut c: usize = 0;
    while c < t.len()
        invariant
            c <= t@.len(),
            rest@ == t@.subrange(0, c as int),
        decreases t@.len() - c,
    {
        rest.push(t[c]);
        c = c + 1;
    }
    proof {
        assert(rest@ =~= t@);
    }
    while chosen.len() < n && rest.len() > 0
        invariant
            keys_distinct(t@),
            chosen@.len() <= n,
            chosen@.len() + rest@.len() == t@.len(),
            keys_distinct(chosen@),
            keys_distinct(rest@),
            forall|a: int, b: int| 0 <= a < chosen@.len() && 0 <= b < rest@.len() ==> #[trigger] chosen@[a].0 != #[trigger] rest@[b].0,
            forall|a: int| 0 <= a < chosen@.len() ==> t@.contains(#[trigger] chosen@[a]),
            forall|b: int| 0 <= b < rest@.len() ==> t@.contains(#[trigger] rest@[b]),
            forall|x: (u64, u64)| t@.contains(x) ==> #[trigger] chosen@.contains(x) || rest@.contains(x),
            forall|a: int, b: int| 0 <= a < b < chosen@.len() ==> #[trigger] chosen@[a].1 >= #[trigger] chosen@[b].1,
            forall|a: int, b: int| 0 <= a < chosen@.len() && 0 <= b < rest@.len() ==> #[trigger] rest@[b].1 <= #[trigger] chosen@[a].1,
        decreases rest@.len(),
    {
        let mut best: usize = 0;
        let mut j: usize = 1;
        while j < rest.len()
            invariant
                0 < rest@.len(),
                best < rest@.len(),
                1 <= j <= rest@.len(),
                best < j,
                forall|b: int| 0 <= b < j ==> #[trigger] rest@[b].1 <= rest@[best as int].1,
            decreases rest@.len() - j,
        {
            if rest[j].1 > rest[best].1 {
                best = j;
            }
            j = j + 1;
        }
        let ghost old_rest = rest@;
        let ghost old_chosen = chosen@;
        let item = rest.remove(best);
        chosen.push(item);
        proof {
            assert(item == old_rest[best as int]);
            assert forall|b: int| 0 <= b < rest@.len() implies #[trigger] rest@[b] == old_rest[if b < best { b } else { b + 1 }] by {}
            assert forall|a: int, b: int| 0 <= a < b < rest@.len() implies #[trigger] rest@[a].0 != #[trigger] rest@[b].0 by {
                let a2 = if a < best { a } else { a + 1 };
                let b2 = if b < best { b } else { b + 1 };
                assert(rest@[a] == old_rest[a2]);
                assert(rest@[b] == old_rest[b2]);
                assert(old_rest[a2].0 != old_rest[b2].0);
            }
            assert forall|a: int, b: int| 0 <= a < b < chosen@.len() implies #[trigger] chosen@[a].0 != #[trigger] chosen@[b].0 by {
                if b == chosen@.len() - 1 {
                    assert(old_chosen[a].0 != old_rest[best as int].0);
                } else {
                    assert(old_chosen[a].0 != old_chosen[b].0);
                }
            }
            assert forall|a: int, b: int| 0 <= a < chosen@.len() && 0 <= b < rest@.len() implies #[trigger] chosen@[a].0 != #[trigger] rest@[b].0 by {
                let b2 = if b < best { b } else { b + 1 };
                assert(rest@[b] == old_rest[b2]);
                if a == chosen@.len() - 1 {
                    assert(old_rest[best as int].0 != old_rest[b2].0);
                } else {
                    assert(old_chosen[a].0 != old_rest[b2].0);
                }
            }
            assert forall|a: int| 0 <= a < chosen@.len() implies t@.contains(#[trigger] chosen@[a]) by {
                if a == chosen@.len() - 1 {
                    assert(t@.contains(old_rest[best as int]));
                } else {
                    assert(t@.contains(old_chosen[a]));
                }
            }
            assert forall|b: int| 0 <= b < rest@.len() implies t@.contains(#[trigger] rest@[b]) by {
                let b2 = if b < best { b } else { b + 1 };
                assert(rest@[b] == old_rest[b2]);
                assert(t@.contains(old_rest[b2]));
            }
            assert forall|x: (u64, u64)| t@.contains(x) implies #[trigger] chosen@.contains(x) || rest@.contains(x) by {
                if old_chosen.contains(x) {
                    let a = choose|a: int| 0 <= a < old_chosen.len() && old_chosen[a] == x;
                    assert(chosen@[a] == x);
                } else {
                    assert(old_rest.contains(x));
                    let b = choose|b: int| 0 <= b < old_rest.len() && old_rest[b] == x;
                    if b == best {
                        assert(chosen@[chosen@.len() - 1] == x);
                    } else if b < best {
                        assert(rest@[b] == x);
                    } else {
                        assert(rest@[b - 1] == x);
                    }
                }
            }
            assert forall|a: int, b: int| 0 <= a < b < chosen@.len() implies #[trigger] chosen@[a].1 >= #[trigger] chosen@[b].1 by {
                if b == chosen@.len() - 1 {
                    assert(old_rest[best as int].1 <= old_chosen[a].1);
                } else {
                    assert(old_chosen[a].1 >= old_chosen[b].1);
                }
            }
            assert forall|a: int, b: int| 0 <= a < chosen@.len() && 0 <= b < rest@.len() implies #[trigger] rest@[b].1 <= #[trigger] chosen@[a].1 by {
                let b2 = if b < best { b } else { b + 1 };
                assert(rest@[b] == old_rest[b2]);
                if a == chosen@.len() - 1 {
                    assert(old_rest[b2].1 <= old_rest[best as int].1);
                } else {
                    assert(old_rest[b2].1 <= old_chosen[a].1);
                }
            }
        }
    }
    proof {
        assert forall|x: (u64, u64), i: int| t@.contains(x) && !has_key(chosen@, x.0) && 0 <= i < chosen@.len() implies #[trigger] x.1 <= #[trigger] chosen@[i].1 by {
            if chosen@.contains(x) {
                let a = choose|a: int| 0 <= a < chosen@.len() && chosen@[a] == x;
                assert(chosen@[a].0 == x.0);
            } else {
                let b = choose|b: int| 0 <= b < rest@.len() && rest@[b] == x;
                assert(rest@[b].1 <= chosen@[i].1);
            }
        }
        if chosen@.len() < n {
            assert(rest@.len() == 0);
            assert forall|x: (u64, u64)| t@.contains(x) implies #[trigger] chosen@.contains(x) by {
                if rest@.contains(x) {
                    let b = choose|b: int| 0 <= b < rest@.len() && rest@[b] == x;
                }
            }
        }
    }
    chosen
}

/// A tally's table and the entries it weighs: the heaviest of the table
/// are the heaviest keys of the entries.
pub proof fn lemma_top_of_tally(e: Seq<(u64, u64)>, t: Seq<(u64, u64)>, top: Seq<(u64, u64)>, n: nat)
    requires
        is_tally(e, t),
        is_top_of(t, top, n),
    ensures
        is_top(e, top, n),
{
    assert forall|i: int| 0 <= i < top.len() implies has_key(e, #[trigger] top[i].0) && top[i].1 == key_weight(e, top[i].0) by {
        assert(t.contains(top[i]));
        let a = choose|a: int| 0 <= a < t.len() && t[a] == top[i];
        assert(has_key(e, t[a].0));
    }
    assert forall|k: u64, i: int| has_key(e, k) && !has_key(top, k) && 0 <= i < top.len() implies #[trigger] key_weight(e, k) <= #[trigger] top[i].1 by {
        assert(has_key(t, k));
        let a = choose|a: int| 0 <= a < t.len() && #[trigger] t[a].0 == k;
        assert(t.contains(t[a]));
        assert(t[a].1 == key_weight(e, k));
        assert(t[a].1 <= top[i].1);
    }
    if top.len() < n {
        assert forall|k: u64| has_key(e, k) implies #[trigger] has_key(top, k) by {
            assert(has_key(t, k));
            let a = choose|a: int| 0 <= a < t.len() && #[trigger] t[a].0 == k;
            assert(t.contains(t[a]));
            assert(top.contains(t[a]));
            let b = choose|b: int| 0 <= b < top.len() && top[b] == t[a];
            assert(top[b].0 == k);
        }
    }
}

/// The `n` keys of `e` with the largest summed weights, with those sums,
/// heaviest first.
pub fn top_keys(e: &Vec<(u64, u64)>, n: usize) -> (r: Vec<(u64, u64)>)
    requires
        total_weight(e@) <= u64::MAX,
    ensures
        is_top(e@, r@, n as nat),
{
    let t = tally(e);
    let r = top_entries(&t, n);
    proof {
        lemma_top_of_tally(e@, t@, r@, n as nat);
    }
    r
}

/// Whether `k` is a key of `e` whose summed weight no other key exceeds.
pub open spec fn is_heaviest(e: Seq<(u64, u64)>, k: u64) -> bool {
    &&& has_key(e, k)
    &&& forall|k2: u64| has_key(e, k2) ==> #[trigger] key_weight(e, k2) <= key_weight(e, k)
}

/// The single heaviest key of a one-entry top is a heaviest key.
pub proof fn lemma_top_one_heaviest(e: Seq<(u64, u64)>, top: Seq<(u64, u64)>)
    requires
        is_top(e, top, 1),
        top.len() == 1,
    ensures
        is_heaviest(e, top[0].0),
{
    assert forall|k2: u64| has_key(e, k2) implies #[trigger] key_weight(e, k2) <= key_weight(e, top[0].0) by {
        if k2 != top[0].0 {
            assert(!has_key(top, k2)) by {
                if has_key(top, k2) {
                    let i = choose|i: int| 0 <= i < top.len() && #[trigger] top[i].0 == k2;
                }
            }
            assert(key_weight(e, k2) <= top[0].1);
        }
    }
}

} // verus!
