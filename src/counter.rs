//! Counting a token sequence in fixed-size chunks, concurrently, and merging
//! the chunks' tables into one.
use crate::table::{
    count, counts_match, entry_views, get_or_zero, lemma_count_concat, lemma_count_le_len,
    lists_map, new_table, table_contents, table_entries, table_get, table_insert,
};
use crate::tokenizer::views;
use dashmap::DashMap;
use rayon::iter::IndexedParallelIterator;
use rayon::iter::IntoParallelRefIterator;
use rayon::iter::ParallelIterator;
use vstd::prelude::*;

verus! {

/// `bs` splits `0..n` into consecutive ranges, in order, with nothing left out.
pub open spec fn is_partition(bs: Seq<(usize, usize)>, n: nat) -> bool {
    &&& bs.len() > 0
    &&& bs[0].0 == 0
    &&& bs.last().1 == n
    &&& forall|i: int| 0 <= i < bs.len() ==> #[trigger] bs[i].0 <= bs[i].1 && bs[i].1 <= n
    &&& forall|i: int| 0 <= i < bs.len() - 1 ==> #[trigger] bs[i].1 == bs[i + 1].0
}

/// Each range of `bs` holds `size` items but the last, which holds at most
/// `size` and is empty only when there is nothing to split.
pub open spec fn is_chunking(bs: Seq<(usize, usize)>, n: nat, size: nat) -> bool {
    &&& forall|i: int| 0 <= i < bs.len() - 1 ==> #[trigger] bs[i].1 - bs[i].0 == size
    &&& bs.last().1 - bs.last().0 <= size
    &&& (n > 0 ==> bs.last().1 > bs.last().0)
}

/// `es` lists each word of `ts` once, with its number of occurrences.
pub open spec fn lists_counts(es: Seq<(Seq<char>, u64)>, ts: Seq<Seq<char>>) -> bool {
    &&& forall|i: int, j: int|
        0 <= i < j < es.len() ==> #[trigger] es[i].0 != #[trigger] es[j].0
    &&& forall|i: int| 0 <= i < es.len() ==> #[trigger] es[i].1 == count(ts, es[i].0) && es[i].1 > 0
    &&& forall|w: Seq<char>| #[trigger] count(ts, w) > 0 ==> exists|i: int| 0 <= i < es.len() && es[i].0 == w
}

/// The ranges of `0..n` in chunks of `size` items: at least one range, the
/// last one shorter where `size` does not divide `n`.
pub fn partition_bounds(n: usize, size: usize) -> (r: Vec<(usize, usize)>)
    requires
        size > 0,
    ensures
        is_partition(r@, n as nat),
        is_chunking(r@, n as nat, size as nat),
{
    let mut r: Vec<(usize, usize)> = Vec::new();
    let first: usize = if n <= size { n } else { size };
    r.push((0, first));
    let mut lo: usize = first;
    while lo < n
        invariant
            r@.len() > 0,
            r@[0].0 == 0,
            r@.last().1 == lo,
            lo <= n,
            size > 0,
            forall|i: int| 0 <= i < r@.len() ==> #[trigger] r@[i].0 <= r@[i].1 && r@[i].1 <= lo,
            forall|i: int| 0 <= i < r@.len() - 1 ==> #[trigger] r@[i].1 == r@[i + 1].0,
            forall|i: int| 0 <= i < r@.len() - 1 ==> #[trigger] r@[i].1 - r@[i].0 == size,
            r@.last().1 - r@.last().0 <= size,
            n > 0 ==> r@.last().1 > r@.last().0,
            lo < n ==> r@.last().1 - r@.last().0 == size,
        decreases n - lo,
    {
        let hi: usize = if n - lo <= size { n } else { lo + size };
        r.push((lo, hi));
        lo = hi;
    }
    r
}

/// The frequency table of `tokens[lo..hi]`.
pub fn count_range(tokens: &Vec<String>, lo: usize, hi: usize) -> (m: DashMap<String, u64>)
    requires
        lo <= hi <= tokens@.len(),
    ensures
        counts_match(table_contents(m), views(tokens@).subrange(lo as int, hi as int)),
{
    let mut m = new_table();
    let mut i: usize = lo;
    assert(views(tokens@).subrange(lo as int, lo as int) =~= Seq::<Seq<char>>::empty());
    while i < hi
        invariant
            lo <= i <= hi <= tokens@.len(),
            counts_match(table_contents(m), views(tokens@).subrange(lo as int, i as int)),
        decreases hi - i,
    {
        let ghost ts = views(tokens@).subrange(lo as int, i as int);
        let ghost next = views(tokens@).subrange(lo as int, i + 1);
        let t = tokens[i].clone();
        assert(next.drop_last() =~= ts);
        assert(next.last() == t@);
        proof {
            lemma_count_le_len(ts, t@);
            lemma_usize_fits();
        }
        let ghost old_m = table_contents(m);
        match table_get(&m, &t) {
            Some(c) => {
                assert(get_or_zero(table_contents(m), t@) == count(ts, t@));
                table_insert(&mut m, t, c + 1);
            },
            None => {
                table_insert(&mut m, t, 1);
            },
        }
        assert forall|w: Seq<char>| #[trigger] get_or_zero(table_contents(m), w) == count(next, w) by {
            assert(get_or_zero(old_m, w) == count(ts, w));
            assert(count(next, w) == count(ts, w) + if next.last() == w { 1nat } else { 0nat });
        }
        i = i + 1;
    }
    m
}

proof fn lemma_usize_fits()
    ensures
        usize::MAX <= u64::MAX,
{
}

/// Whether `w` is the word of one of the first `j` entries of `es`.
spec fn in_prefix(es: Seq<(Seq<char>, u64)>, j: int, w: Seq<char>) -> bool
    decreases j,
{
    if j <= 0 {
        false
    } else {
        es[j - 1].0 == w || in_prefix(es, j - 1, w)
    }
}

proof fn lemma_in_prefix(es: Seq<(Seq<char>, u64)>, j: int, w: Seq<char>)
    requires
        0 <= j <= es.len(),
    ensures
        in_prefix(es, j, w) <==> exists|i: int| 0 <= i < j && es[i].0 == w,
    decreases j,
{
    if j > 0 {
        lemma_in_prefix(es, j - 1, w);
        if es[j - 1].0 == w {
            assert(0 <= j - 1 < j && es[j - 1].0 == w);
        }
    }
}

/// Adds every count of `part` into `global`.
fn merge_into(
    global: &mut DashMap<String, u64>,
    part: DashMap<String, u64>,
    Ghost(ta): Ghost<Seq<Seq<char>>>,
    Ghost(tb): Ghost<Seq<Seq<char>>>,
)
    requires
        counts_match(table_contents(*old(global)), ta),
        counts_match(table_contents(part), tb),
        ta.len() + tb.len() <= usize::MAX,
    ensures
        counts_match(table_contents(*final(global)), tb + ta),
{
    let ghost pm = table_contents(part);
    let es = table_entries(part);
    let ghost ev = entry_views(es@);
    let mut j: usize = 0;
    while j < es.len()
        invariant
            j <= es@.len(),
            ev == entry_views(es@),
            lists_map(ev, pm),
            counts_match(pm, tb),
            ta.len() + tb.len() <= usize::MAX,
            forall|w: Seq<char>| #[trigger] get_or_zero(table_contents(*global), w)
                == count(ta, w) + if in_prefix(ev, j as int, w) { count(tb, w) } else { 0 },
            forall|w: Seq<char>| #[trigger] table_contents(*global).contains_key(w)
                ==> table_contents(*global)[w] > 0,
        decreases es@.len() - j,
    {
        let key = es[j].0.clone();
        let v = es[j].1;
        assert(ev[j as int].0 == key@ && ev[j as int].1 == v);
        proof {
            lemma_in_prefix(ev, j as int, key@);
            lemma_count_concat(tb, ta, key@);
            lemma_count_le_len(tb + ta, key@);
            lemma_usize_fits();
            assert(get_or_zero(pm, key@) == count(tb, key@));
            if in_prefix(ev, j as int, key@) {
                let i = choose|i: int| 0 <= i < j && ev[i].0 == key@;
                assert(ev[i].0 != ev[j as int].0);
            }
            assert(get_or_zero(table_contents(*global), key@) == count(ta, key@));
        }
        let ghost old_g = table_contents(*global);
        let old_count: u64 = match table_get(global, &key) {
            Some(c) => c,
            None => 0,
        };
        table_insert(global, key, old_count + v);
        assert forall|w: Seq<char>| #[trigger] get_or_zero(table_contents(*global), w)
            == count(ta, w) + if in_prefix(ev, j + 1, w) { count(tb, w) } else { 0 } by {
            assert(get_or_zero(old_g, w)
                == count(ta, w) + if in_prefix(ev, j as int, w) { count(tb, w) } else { 0 });
            assert(in_prefix(ev, j + 1, w) == (ev[j as int].0 == w || in_prefix(ev, j as int, w)));
        }
        j = j + 1;
    }
    assert forall|w: Seq<char>| #[trigger] get_or_zero(table_contents(*global), w) == count(tb + ta, w) by {
        lemma_in_prefix(ev, ev.len() as int, w);
        lemma_count_concat(tb, ta, w);
        assert(get_or_zero(pm, w) == count(tb, w));
        if pm.contains_key(w) {
            let i = choose|i: int| 0 <= i < ev.len() && ev[i].0 == w;
            assert(0 <= i < ev.len() && ev[i].0 == w);
        }
    }
}

/// Relies on rayon's `par_iter`, `map` and `collect_into_vec`: one table per
/// range, made by `count_range`, collected in the order of the ranges.
#[verifier::external_body]
fn count_chunks(tokens: &Vec<String>, bounds: &Vec<(usize, usize)>) -> (r: Vec<DashMap<String, u64>>)
    requires
        forall|i: int| 0 <= i < bounds@.len() ==> #[trigger] bounds@[i].0 <= bounds@[i].1 && bounds@[i].1 <= tokens@.len(),
    ensures
        r@.len() == bounds@.len(),
        forall|i: int| 0 <= i < r@.len() ==> counts_match(
            table_contents(#[trigger] r@[i]),
            views(tokens@).subrange(bounds@[i].0 as int, bounds@[i].1 as int),
        ),
{
    let mut r = Vec::new();
    bounds.par_iter().map(|b| count_range(tokens, b.0, b.1)).collect_into_vec(&mut r);
    r
}

/// Counts the words of `tokens`: splits them into chunks of `chunk_size`,
/// counts the chunks concurrently, each into a table of its own, and merges
/// the tables. Returns each distinct word once with its count, in no
/// particular order.
pub fn count_words(tokens: &Vec<String>, chunk_size: usize) -> (r: Vec<(String, u64)>)
    requires
        chunk_size > 0,
    ensures
        lists_counts(entry_views(r@), views(tokens@)),
{
    let ghost ts = views(tokens@);
    let n = tokens.len();
    let bounds = partition_bounds(n, chunk_size);
    let mut parts = count_chunks(tokens, &bounds);
    let mut global = new_table();
    let mut k: usize = parts.len();
    assert(ts.subrange(n as int, n as int) =~= Seq::<Seq<char>>::empty());
    while k > 0
        invariant
            k == parts@.len(),
            k <= bounds@.len(),
            ts == views(tokens@),
            n == tokens@.len(),
            is_partition(bounds@, n as nat),
            forall|i: int| 0 <= i < parts@.len() ==> counts_match(
                table_contents(#[trigger] parts@[i]),
                ts.subrange(bounds@[i].0 as int, bounds@[i].1 as int),
            ),
            counts_match(
                table_contents(global),
                ts.subrange(if k == bounds@.len() { n as int } else { bounds@[k as int].0 as int }, n as int),
            ),
        decreases k,
    {
        let ghost start = if k == bounds@.len() { n as int } else { bounds@[k as int].0 as int };
        let ghost lo = bounds@[k - 1].0 as int;
        let ghost hi = bounds@[k - 1].1 as int;
        assert(hi == start);
        let part = match parts.pop() {
            Some(p) => p,
            None => { return Vec::new(); },
        };
        merge_into(&mut global, part, Ghost(ts.subrange(start, n as int)), Ghost(ts.subrange(lo, hi)));
        assert(ts.subrange(lo, hi) + ts.subrange(start, n as int) =~= ts.subrange(lo, n as int));
        k = k - 1;
    }
    assert(ts.subrange(0, n as int) =~= ts);
    let ghost m = table_contents(global);
    let r = table_entries(global);
    proof {
        lemma_listed(entry_views(r@), m, ts);
    }
    r
}

proof fn lemma_listed(ev: Seq<(Seq<char>, u64)>, m: Map<Seq<char>, u64>, ts: Seq<Seq<char>>)
    requires
        lists_map(ev, m),
        counts_match(m, ts),
    ensures
        lists_counts(ev, ts),
{
    assert forall|i: int| 0 <= i < ev.len() implies #[trigger] ev[i].1 == count(ts, ev[i].0) && ev[i].1 > 0 by {
        assert(get_or_zero(m, ev[i].0) == count(ts, ev[i].0));
    }
    assert forall|w: Seq<char>| #[trigger] count(ts, w) > 0 implies exists|i: int| 0 <= i < ev.len() && ev[i].0 == w by {
        assert(get_or_zero(m, w) == count(ts, w));
    }
}

/// The summed counts of `w` over the first `m` ranges of `bs`, each counted
/// on its own.
pub open spec fn sum_of_ranges(ts: Seq<Seq<char>>, bs: Seq<(usize, usize)>, m: nat, w: Seq<char>) -> nat
    decreases m,
{
    if m == 0 {
        0
    } else {
        sum_of_ranges(ts, bs, (m - 1) as nat, w) + count(
            ts.subrange(bs[m - 1].0 as int, bs[m - 1].1 as int),
            w,
        )
    }
}

proof fn lemma_sum_of_ranges_prefix(ts: Seq<Seq<char>>, bs: Seq<(usize, usize)>, m: nat, w: Seq<char>)
    requires
        is_partition(bs, ts.len()),
        1 <= m <= bs.len(),
    ensures
        sum_of_ranges(ts, bs, m, w) == count(ts.subrange(0, bs[m - 1].1 as int), w),
    decreases m,
{
    let r = ts.subrange(bs[m - 1].0 as int, bs[m - 1].1 as int);
    if m == 1 {
        assert(sum_of_ranges(ts, bs, 0, w) == 0);
    } else {
        lemma_sum_of_ranges_prefix(ts, bs, (m - 1) as nat, w);
        let mid = bs[m - 2].1 as int;
        assert(bs[m - 2].1 == bs[m - 1].0);
        assert(ts.subrange(0, mid) + r =~= ts.subrange(0, bs[m - 1].1 as int));
        lemma_count_concat(ts.subrange(0, mid), r, w);
    }
}

/// Counting each range of a partition separately and adding up the counts
/// gives, for every word, its count over the whole sequence.
pub proof fn lemma_partition_counts(ts: Seq<Seq<char>>, bs: Seq<(usize, usize)>, w: Seq<char>)
    requires
        is_partition(bs, ts.len()),
    ensures
        sum_of_ranges(ts, bs, bs.len(), w) == count(ts, w),
{
    lemma_sum_of_ranges_prefix(ts, bs, bs.len(), w);
    assert(ts.subrange(0, ts.len() as int) =~= ts);
}

/// Counting two groups of tokens separately and adding the counts gives the
/// count over both, in either order.
pub proof fn lemma_groups_count(a: Seq<Seq<char>>, b: Seq<Seq<char>>, w: Seq<char>)
    ensures
        count(a, w) + count(b, w) == count(a + b, w),
        count(a + b, w) == count(b + a, w),
{
    lemma_count_concat(a, b, w);
    lemma_count_concat(b, a, w);
}

/// The sum of the counts in a list of entries.
pub open spec fn total(es: Seq<(Seq<char>, u64)>) -> nat
    decreases es.len(),
{
    if es.len() == 0 {
        0
    } else {
        total(es.drop_last()) + es.last().1 as nat
    }
}

/// The sum over the words `ks` of their counts in `ts`.
spec fn total_of(ks: Seq<Seq<char>>, ts: Seq<Seq<char>>) -> nat
    decreases ks.len(),
{
    if ks.len() == 0 {
        0
    } else {
        total_of(ks.drop_last(), ts) + count(ts, ks.last())
    }
}

/// How many of `ks` equal `x`.
spec fn hits(ks: Seq<Seq<char>>, x: Seq<char>) -> nat
    decreases ks.len(),
{
    if ks.len() == 0 {
        0
    } else {
        hits(ks.drop_last(), x) + if ks.last() == x {
            1nat
        } else {
            0nat
        }
    }
}

spec fn distinct(ks: Seq<Seq<char>>) -> bool {
    forall|i: int, j: int| 0 <= i < j < ks.len() ==> #[trigger] ks[i] != #[trigger] ks[j]
}

proof fn lemma_hits(ks: Seq<Seq<char>>, x: Seq<char>)
    requires
        distinct(ks),
    ensures
        hits(ks, x) == if ks.contains(x) { 1nat } else { 0nat },
    decreases ks.len(),
{
    if ks.len() > 0 {
        let p = ks.drop_last();
        assert(distinct(p)) by {
            assert forall|i: int, j: int| 0 <= i < j < p.len() implies #[trigger] p[i] != #[trigger] p[j] by {
                assert(p[i] == ks[i] && p[j] == ks[j]);
            }
        }
        lemma_hits(p, x);
        if ks.last() == x {
            if p.contains(x) {
                let i = choose|i: int| 0 <= i < p.len() && p[i] == x;
                assert(ks[i] != ks[ks.len() - 1]);
            }
            assert(ks[ks.len() - 1] == x);
        } else {
            if ks.contains(x) {
                let i = choose|i: int| 0 <= i < ks.len() && ks[i] == x;
                assert(p[i] == x);
            }
            if p.contains(x) {
                let i = choose|i: int| 0 <= i < p.len() && p[i] == x;
                assert(ks[i] == x);
            }
        }
    }
}

proof fn lemma_total_of_push(ks: Seq<Seq<char>>, ts: Seq<Seq<char>>, x: Seq<char>)
    ensures
        total_of(ks, ts.push(x)) == total_of(ks, ts) + hits(ks, x),
    decreases ks.len(),
{
    if ks.len() > 0 {
        lemma_total_of_push(ks.drop_last(), ts, x);
        assert(ts.push(x).drop_last() =~= ts);
    }
}

proof fn lemma_total_of_covering(ks: Seq<Seq<char>>, ts: Seq<Seq<char>>)
    requires
        distinct(ks),
        forall|j: int| 0 <= j < ts.len() ==> ks.contains(#[trigger] ts[j]),
    ensures
        total_of(ks, ts) == ts.len(),
    decreases ts.len(),
{
    if ts.len() == 0 {
        lemma_total_of_empty(ks, ts);
    } else {
        let p = ts.drop_last();
        assert forall|j: int| 0 <= j < p.len() implies ks.contains(#[trigger] p[j]) by {
            assert(p[j] == ts[j]);
        }
        lemma_total_of_covering(ks, p);
        assert(p.push(ts.last()) =~= ts);
        lemma_total_of_push(ks, p, ts.last());
        assert(ks.contains(ts[ts.len() - 1]));
        lemma_hits(ks, ts.last());
    }
}

proof fn lemma_total_of_empty(ks: Seq<Seq<char>>, ts: Seq<Seq<char>>)
    requires
        ts.len() == 0,
    ensures
        total_of(ks, ts) == 0,
    decreases ks.len(),
{
    if ks.len() > 0 {
        lemma_total_of_empty(ks.drop_last(), ts);
    }
}

proof fn lemma_total_as_total_of(es: Seq<(Seq<char>, u64)>, ts: Seq<Seq<char>>)
    requires
        forall|i: int| 0 <= i < es.len() ==> #[trigger] es[i].1 == count(ts, es[i].0),
    ensures
        total(es) == total_of(es.map_values(|e: (Seq<char>, u64)| e.0), ts),
    decreases es.len(),
{
    let ks = es.map_values(|e: (Seq<char>, u64)| e.0);
    if es.len() > 0 {
        let p = es.drop_last();
        assert forall|i: int| 0 <= i < p.len() implies #[trigger] p[i].1 == count(ts, p[i].0) by {
            assert(p[i] == es[i]);
        }
        lemma_total_as_total_of(p, ts);
        assert(ks.drop_last() =~= p.map_values(|e: (Seq<char>, u64)| e.0));
        assert(es[es.len() - 1].1 == count(ts, es[es.len() - 1].0));
    }
}

proof fn lemma_count_member(ts: Seq<Seq<char>>, j: int)
    requires
        0 <= j < ts.len(),
    ensures
        count(ts, ts[j]) > 0,
    decreases ts.len(),
{
    if j < ts.len() - 1 {
        lemma_count_member(ts.drop_last(), j);
        assert(ts.drop_last()[j] == ts[j]);
    }
}

/// The counts of a complete word-count list add up to the number of tokens.
pub proof fn lemma_count_conservation(es: Seq<(Seq<char>, u64)>, ts: Seq<Seq<char>>)
    requires
        lists_counts(es, ts),
    ensures
        total(es) == ts.len(),
{
    let ks = es.map_values(|e: (Seq<char>, u64)| e.0);
    lemma_total_as_total_of(es, ts);
    assert(distinct(ks)) by {
        assert forall|i: int, j: int| 0 <= i < j < ks.len() implies #[trigger] ks[i] != #[trigger] ks[j] by {
            assert(es[i].0 != es[j].0);
        }
    }
    assert forall|j: int| 0 <= j < ts.len() implies ks.contains(#[trigger] ts[j]) by {
        lemma_count_member(ts, j);
        let i = choose|i: int| 0 <= i < es.len() && es[i].0 == ts[j];
        assert(ks[i] == ts[j]);
    }
    lemma_total_of_covering(ks, ts);
}

} // verus!
