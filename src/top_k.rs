//! Keeping the K entries of highest count, in a fixed number of slots.
use crate::table::entry_views;
use vstd::prelude::*;

verus! {

/// The value of an empty slot: no word, count zero.
pub open spec fn sentinel() -> (Seq<char>, u64) {
    (Seq::empty(), 0)
}

/// The first slot of `l` whose count is below `c`; `l.len()` when there is none.
pub open spec fn first_below(l: Seq<(Seq<char>, u64)>, c: u64) -> int
    decreases l.len(),
{
    if l.len() == 0 {
        0
    } else if l[0].1 < c {
        0
    } else {
        1 + first_below(l.drop_first(), c)
    }
}

/// `l` after offering it `e`: `e` goes into the first slot whose count is
/// below its own, the slots from there on move down by one and the last one
/// falls off; when no slot is below it, `l` stays as it is.
pub open spec fn offer(l: Seq<(Seq<char>, u64)>, e: (Seq<char>, u64)) -> Seq<(Seq<char>, u64)> {
    let p = first_below(l, e.1);
    if p < l.len() {
        l.take(p).push(e) + l.subrange(p, l.len() - 1)
    } else {
        l
    }
}

/// The `k` slots after the first `n` entries of `es` were offered in turn,
/// starting from `k` empty slots.
pub open spec fn top_after(es: Seq<(Seq<char>, u64)>, n: nat, k: nat) -> Seq<(Seq<char>, u64)>
    decreases n,
{
    if n == 0 || n > es.len() {
        Seq::new(k, |i: int| sentinel())
    } else {
        offer(top_after(es, (n - 1) as nat, k), es[n - 1])
    }
}

/// The top-`k` list of `es`: every entry offered, in the order of `es`.
pub open spec fn top_k_of(es: Seq<(Seq<char>, u64)>, k: nat) -> Seq<(Seq<char>, u64)> {
    top_after(es, es.len(), k)
}

/// Counts never increase along `l`.
pub open spec fn sorted_desc(l: Seq<(Seq<char>, u64)>) -> bool {
    forall|i: int, j: int| 0 <= i < j < l.len() ==> #[trigger] l[i].1 >= #[trigger] l[j].1
}

/// `e` holds a slot of `l`, or its count is no more than the last slot's
/// (trivially so when there are no slots).
pub open spec fn kept_or_below(l: Seq<(Seq<char>, u64)>, e: (Seq<char>, u64)) -> bool {
    l.contains(e) || l.len() == 0 || e.1 <= l.last().1
}

proof fn lemma_first_below(l: Seq<(Seq<char>, u64)>, c: u64)
    ensures
        0 <= first_below(l, c) <= l.len(),
        forall|q: int| 0 <= q < first_below(l, c) ==> #[trigger] l[q].1 >= c,
        first_below(l, c) < l.len() ==> l[first_below(l, c)].1 < c,
    decreases l.len(),
{
    if l.len() > 0 && l[0].1 >= c {
        lemma_first_below(l.drop_first(), c);
        assert forall|q: int| 0 <= q < first_below(l, c) implies #[trigger] l[q].1 >= c by {
            if q > 0 {
                assert(l[q] == l.drop_first()[q - 1]);
            }
        }
    }
}

proof fn lemma_offer(l: Seq<(Seq<char>, u64)>, e: (Seq<char>, u64))
    requires
        sorted_desc(l),
    ensures
        offer(l, e).len() == l.len(),
        sorted_desc(offer(l, e)),
        kept_or_below(offer(l, e), e),
        forall|x: (Seq<char>, u64)| kept_or_below(l, x) ==> #[trigger] kept_or_below(offer(l, e), x),
{
    lemma_first_below(l, e.1);
    let p = first_below(l, e.1);
    let n = offer(l, e);
    if p < l.len() {
        assert(n.len() == l.len());
        assert forall|i: int| 0 <= i < n.len() implies #[trigger] n[i] == (if i < p {
            l[i]
        } else if i == p {
            e
        } else {
            l[i - 1]
        }) by {}
        assert forall|i: int, j: int| 0 <= i < j < n.len() implies #[trigger] n[i].1 >= #[trigger] n[j].1 by {
            assert(n[i] == (if i < p { l[i] } else if i == p { e } else { l[i - 1] }));
            assert(n[j] == (if j < p { l[j] } else if j == p { e } else { l[j - 1] }));
            if i < p && j > p {
                assert(l[i].1 >= l[j - 1].1);
            }
        }
        assert(n[p] == e);
        assert(n.contains(e));
        assert(n.last().1 >= l.last().1) by {
            let z = l.len() - 1;
            assert(n[z] == (if z < p { l[z] } else if z == p { e } else { l[z - 1] }));
        }
        assert forall|x: (Seq<char>, u64)| kept_or_below(l, x) implies #[trigger] kept_or_below(n, x) by {
            if l.contains(x) {
                let q = choose|q: int| 0 <= q < l.len() && l[q] == x;
                if q < p {
                    assert(n[q] == l[q]);
                } else if q < l.len() - 1 {
                    assert(n[q + 1] == l[q]);
                } else {
                    assert(x.1 <= l.last().1);
                }
            }
        }
    } else if l.len() > 0 {
        assert(l[l.len() - 1].1 >= e.1);
    }
}

/// Offering entries one by one keeps the slots sorted by count, descending,
/// and never changes how many there are.
pub proof fn lemma_top_after_sorted(es: Seq<(Seq<char>, u64)>, n: nat, k: nat)
    ensures
        top_after(es, n, k).len() == k,
        sorted_desc(top_after(es, n, k)),
    decreases n,
{
    if n == 0 || n > es.len() {
    } else {
        lemma_top_after_sorted(es, (n - 1) as nat, k);
        lemma_offer(top_after(es, (n - 1) as nat, k), es[n - 1]);
    }
}

proof fn lemma_top_after_kept(es: Seq<(Seq<char>, u64)>, n: nat, k: nat)
    requires
        n <= es.len(),
    ensures
        forall|j: int| 0 <= j < n ==> kept_or_below(top_after(es, n, k), #[trigger] es[j]),
    decreases n,
{
    if n > 0 {
        let prev = top_after(es, (n - 1) as nat, k);
        lemma_top_after_kept(es, (n - 1) as nat, k);
        lemma_top_after_sorted(es, (n - 1) as nat, k);
        lemma_offer(prev, es[n - 1]);
        assert forall|j: int| 0 <= j < n implies kept_or_below(top_after(es, n, k), #[trigger] es[j]) by {
            if j < n - 1 {
                assert(kept_or_below(prev, es[j]));
            }
        }
    }
}

/// At every stage of the selection, the list has exactly `k` slots, sorted
/// by count from highest to lowest.
pub proof fn lemma_top_k_bounded_and_sorted(es: Seq<(Seq<char>, u64)>, k: nat)
    ensures
        forall|n: nat| n <= es.len() ==> (#[trigger] top_after(es, n, k)).len() == k
            && sorted_desc(top_after(es, n, k)),
{
    assert forall|n: nat| n <= es.len() implies (#[trigger] top_after(es, n, k)).len() == k
        && sorted_desc(top_after(es, n, k)) by {
        lemma_top_after_sorted(es, n, k);
    }
}

/// Every entry left out of the top-`k` list has a count no greater than the
/// count of any entry in it.
pub proof fn lemma_top_k_membership(es: Seq<(Seq<char>, u64)>, k: nat)
    ensures
        forall|j: int, i: int|
            0 <= j < es.len() && 0 <= i < k && !top_k_of(es, k).contains(#[trigger] es[j])
                ==> es[j].1 <= (#[trigger] top_k_of(es, k)[i]).1,
{
    let t = top_k_of(es, k);
    lemma_top_after_kept(es, es.len(), k);
    lemma_top_after_sorted(es, es.len(), k);
    assert forall|j: int, i: int|
        0 <= j < es.len() && 0 <= i < k && !t.contains(#[trigger] es[j]) implies es[j].1 <= (#[trigger] t[i]).1 by {
        assert(kept_or_below(t, es[j]));
        if i < k - 1 {
            assert(t[i].1 >= t[k - 1].1);
        }
    }
}

/// The top-`k` list of `entries`: `k` slots, sorted by count from highest to
/// lowest. Each entry in turn goes into the first slot whose count is
/// strictly below its own, so an entry never displaces one of equal count
/// offered before it; slots that no entry reached hold an empty word with
/// count zero.
pub fn top_k(entries: &Vec<(String, u64)>, k: usize) -> (r: Vec<(String, u64)>)
    ensures
        entry_views(r@) == top_k_of(entry_views(entries@), k as nat),
        r@.len() == k,
        sorted_desc(entry_views(r@)),
{
    let ghost es = entry_views(entries@);
    let mut slots: Vec<(String, u64)> = Vec::new();
    let mut s: usize = 0;
    while s < k
        invariant
            s <= k,
            slots@.len() == s,
            forall|i: int| 0 <= i < s ==> #[trigger] entry_views(slots@)[i] == sentinel(),
        decreases k - s,
    {
        let ghost before = entry_views(slots@);
        let empty = String::new();
        assert(empty@ =~= Seq::<char>::empty());
        slots.push((empty, 0));
        assert(entry_views(slots@) =~= before.push(sentinel()));
        s = s + 1;
    }
    assert(entry_views(slots@) =~= top_after(es, 0, k as nat));
    let mut n: usize = 0;
    while n < entries.len()
        invariant
            n <= entries@.len(),
            es == entry_views(entries@),
            slots@.len() == k,
            entry_views(slots@) == top_after(es, n as nat, k as nat),
        decreases entries@.len() - n,
    {
        let c = entries[n].1;
        let ghost l = entry_views(slots@);
        proof {
            lemma_top_after_sorted(es, n as nat, k as nat);
            lemma_first_below(l, c);
        }
        let mut p: usize = 0;
        while p < k && slots[p].1 >= c
            invariant
                p <= k,
                slots@.len() == k,
                l == entry_views(slots@),
                forall|q: int| 0 <= q < p ==> #[trigger] l[q].1 >= c,
            decreases k - p,
        {
            p = p + 1;
        }
        assert(p == first_below(l, c)) by {
            if p < first_below(l, c) {
                assert(l[p as int].1 >= c);
            } else if p > first_below(l, c) {
                assert(l[first_below(l, c)].1 >= c);
            }
        }
        assert(es[n as int] == (entries@[n as int].0@, c));
        if p < k {
            let word = entries[n].0.clone();
            slots.insert(p, (word, c));
            let _ = slots.pop();
            assert(entry_views(slots@) =~= l.take(p as int).push(es[n as int]) + l.subrange(p as int, k - 1));
        }
        n = n + 1;
    }
    proof {
        lemma_top_after_sorted(es, es.len(), k as nat);
    }
    slots
}

} // verus!
