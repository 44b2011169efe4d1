//! Ranked lists: ordering rows, cutting the list after rank 1000 without
//! splitting a tie, and standard competition ranks (ties share the rank of
//! their first row).
use vstd::prelude::*;
use crate::sort::{SortKey, sort_keys, sorted_keys};

verus! {

/// Length to keep of a list whose consecutive rows tie when `same[i]` holds
/// (`same[i]` compares row `i` with row `i - 1`): everything up to row 1000,
/// then further rows as long as they tie with the row before.
pub open spec fn cutoff_spec(same: Seq<bool>) -> int {
    if same.len() <= 1000 {
        same.len() as int
    } else {
        cut_from(same, 1000)
    }
}

pub open spec fn cut_from(same: Seq<bool>, i: int) -> int
    decreases same.len() - i,
{
    if i >= same.len() || !same[i] {
        i
    } else {
        cut_from(same, i + 1)
    }
}

/// First index at or after 1000 where the rank changes, or the length of the
/// list when there is none.
pub fn cutoff_at_1000(same: &Vec<bool>) -> (n: usize)
    ensures
        n == cutoff_spec(same@),
        n <= same@.len(),
{
    let rows_len = same.len();
    if rows_len <= 1000 {
        return rows_len;
    }
    let mut i: usize = 1000;
    while i < rows_len && same[i]
        invariant
            1000 <= i <= rows_len,
            rows_len == same@.len(),
            cut_from(same@, i as int) == cut_from(same@, 1000),
        decreases rows_len - i,
    {
        i = i + 1;
    }
    i
}

/// Competition ranks of an ordered list: row `i` takes rank `i + 1` unless it
/// ties with the row before, in which case it shares that row's rank.
pub open spec fn ranks_ok(same: Seq<bool>, ranks: Seq<usize>) -> bool {
    &&& ranks.len() == same.len()
    &&& forall|i: int| 0 <= i < ranks.len() ==> #[trigger] ranks[i] == if i > 0 && same[i] { ranks[i - 1] as int } else { i + 1 }
}

pub fn competition_ranks(same: &Vec<bool>) -> (ranks: Vec<usize>)
    ensures
        ranks_ok(same@, ranks@),
{
    let mut ranks: Vec<usize> = Vec::new();
    let mut i: usize = 0;
    while i < same.len()
        invariant
            i <= same@.len(),
            ranks@.len() == i,
            forall|k: int| 0 <= k < i ==> #[trigger] ranks@[k] == if k > 0 && same@[k] { ranks@[k - 1] as int } else { k + 1 },
            forall|k: int| 0 <= k < i ==> 1 <= #[trigger] ranks@[k] <= k + 1,
        decreases same.len() - i,
    {
        let r = if i > 0 && same[i] { ranks[i - 1] } else { i + 1 };
        ranks.push(r);
        i = i + 1;
    }
    ranks
}

/// Two keys tie on their first `n_rank` fields (1 or 2).
pub open spec fn ties(a: SortKey, b: SortKey, n_rank: int) -> bool {
    a.0 == b.0 && (n_rank < 2 || a.1 == b.1)
}

/// The tie flags of an ordered key list.
pub open spec fn same_flags(sk: Seq<SortKey>, n_rank: int) -> Seq<bool> {
    Seq::new(sk.len(), |i: int| i > 0 && ties(sk[i - 1], sk[i], n_rank))
}

/// `sk` is `keys` in sorted order.
pub open spec fn is_sorted_perm(keys: Seq<SortKey>, sk: Seq<SortKey>) -> bool {
    &&& sk.to_multiset() == keys.to_multiset()
    &&& sk.len() == keys.len()
    &&& sorted_keys(sk)
}

/// `out` lists, for the kept prefix of `sk`, each row's rank and payload.
pub open spec fn ranked_prefix(out: Seq<(usize, usize)>, sk: Seq<SortKey>, n_rank: int) -> bool {
    let same = same_flags(sk, n_rank);
    &&& out.len() == cutoff_spec(same)
    &&& exists|ranks: Seq<usize>| #[trigger] ranks_ok(same, ranks) && forall|i: int| 0 <= i < out.len() ==> #[trigger] out[i] == (ranks[i], sk[i].4)
}

/// The kept prefix is no longer than the list, and row `i` carries payload `sk[i].4`.
pub proof fn lemma_ranked_len(out: Seq<(usize, usize)>, sk: Seq<SortKey>, n_rank: int)
    requires
        ranked_prefix(out, sk, n_rank),
    ensures
        out.len() <= sk.len(),
        forall|i: int| 0 <= i < out.len() ==> (#[trigger] out[i]).1 == sk[i].4,
{
    lemma_cut_from_bound(same_flags(sk, n_rank), 1000);
    let ranks = choose|ranks: Seq<usize>| #[trigger] ranks_ok(same_flags(sk, n_rank), ranks) && forall|i: int| 0 <= i < out.len() ==> #[trigger] out[i] == (ranks[i], sk[i].4);
}

/// A nonempty list keeps at least its first row.
pub proof fn lemma_ranked_nonempty(out: Seq<(usize, usize)>, sk: Seq<SortKey>, n_rank: int)
    requires
        ranked_prefix(out, sk, n_rank),
    ensures
        sk.len() > 0 ==> out.len() > 0,
        out.len() <= sk.len(),
{
    lemma_ranked_len(out, sk, n_rank);
    lemma_cut_from_bound(same_flags(sk, n_rank), 1000);
    lemma_cut_from_ge(same_flags(sk, n_rank), 1000);
}

proof fn lemma_cut_from_ge(same: Seq<bool>, i: int)
    ensures
        cut_from(same, i) >= i,
    decreases same.len() - i,
{
    if i < same.len() && same[i] {
        lemma_cut_from_ge(same, i + 1);
    }
}

proof fn lemma_cut_from_bound(same: Seq<bool>, i: int)
    requires
        0 <= i,
    ensures
        cut_from(same, i) <= same.len() || cut_from(same, i) == i,
        i <= same.len() ==> cut_from(same, i) <= same.len(),
    decreases same.len() - i,
{
    if i < same.len() && same[i] {
        lemma_cut_from_bound(same, i + 1);
    }
}

/// Orders the keys, keeps the list through rank 1000 (not splitting a tie on
/// the first `n_rank` fields), and pairs each kept row's rank with its payload.
pub fn rank_keys(keys: &Vec<SortKey>, n_rank: usize) -> (out: Vec<(usize, usize)>)
    requires
        n_rank == 1 || n_rank == 2,
    ensures
        exists|sk: Seq<SortKey>| #[trigger] is_sorted_perm(keys@, sk) && ranked_prefix(out@, sk, n_rank as int),
{
    let sk = sort_keys(keys);
    let mut same: Vec<bool> = Vec::new();
    let mut i: usize = 0;
    while i < sk.len()
        invariant
            i <= sk@.len(),
            n_rank == 1 || n_rank == 2,
            same@.len() == i,
            forall|k: int| 0 <= k < i ==> #[trigger] same@[k] == (k > 0 && ties(sk@[k - 1], sk@[k], n_rank as int)),
        decreases sk.len() - i,
    {
        let s = i > 0 && sk[i - 1].0 == sk[i].0 && (n_rank < 2 || sk[i - 1].1 == sk[i].1);
        same.push(s);
        i = i + 1;
    }
    proof {
        assert(same@ =~= same_flags(sk@, n_rank as int));
    }
    let n = cutoff_at_1000(&same);
    let ranks = competition_ranks(&same);
    let mut out: Vec<(usize, usize)> = Vec::new();
    let mut j: usize = 0;
    while j < n
        invariant
            j <= n,
            n <= same@.len(),
            same@.len() == sk@.len(),
            ranks@.len() == sk@.len(),
            out@.len() == j,
            forall|k: int| 0 <= k < j ==> #[trigger] out@[k] == (ranks@[k], sk@[k].4),
        decreases n - j,
    {
        out.push((ranks[j], sk[j].4));
        j = j + 1;
    }
    proof {
        assert(ranks_ok(same_flags(sk@, n_rank as int), ranks@));
        assert(is_sorted_perm(keys@, sk@));
    }
    out
}

} // verus!
