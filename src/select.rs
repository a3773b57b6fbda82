//! Which features a tile keeps, and in what order.
//!
//! The features that the spatial query returned for a tile are first put in
//! priority order, then taken one by one: a feature with no vertex inside the
//! tile is passed over, and the encoded sizes of the others are summed against
//! an optional byte budget. The feature whose size takes the sum over the
//! budget is still kept, and nothing after it is looked at.

use vstd::prelude::*;
use vstd::set_lib::{lemma_int_range, lemma_subset_equality, set_int_range};

verus! {

/// What the tile builder knows of one feature returned by the spatial query.
#[derive(Debug, Clone, Copy)]
pub struct Candidate {
    /// Rounded value of the priority attribute, if the feature has a numeric one.
    pub sort_key: Option<usize>,
    /// The feature is a line-string with at least one vertex inside the tile.
    pub vertex_inside: bool,
    /// Length in bytes of the feature's encoded geometry.
    pub encoded_len: usize,
}

/// The outcome of the selection for one tile.
#[derive(Debug)]
pub struct TileSelection {
    /// Indices of all candidates, in the order in which they were considered.
    pub order: Vec<usize>,
    /// Indices of the retained candidates, in output order.
    pub kept: Vec<usize>,
    /// The budget was exceeded; the last kept feature is the one that exceeded it.
    pub truncated: bool,
}

/// Priority used for ordering: a missing key counts as zero.
pub open spec fn key_of(c: Candidate) -> int {
    match c.sort_key {
        Some(k) => k as int,
        None => 0,
    }
}

/// Candidate `i` comes before candidate `j`: a higher key first, and among
/// equal keys the later candidate first.
pub open spec fn ranks_before(keys: Seq<int>, i: int, j: int) -> bool {
    keys[i] > keys[j] || (keys[i] == keys[j] && i > j)
}

/// `ord` lists the indices of `keys` by descending key, ties in reverse
/// index order. Exactly one sequence has this property.
pub open spec fn is_priority_order(keys: Seq<int>, ord: Seq<usize>) -> bool {
    &&& ord.len() == keys.len()
    &&& forall|a: int| 0 <= a < ord.len() ==> ord[a] < keys.len()
    &&& forall|a: int, b: int|
        0 <= a < b < ord.len() ==> ranks_before(keys, ord[a] as int, ord[b] as int)
}

/// The indices `0, 1, ..., n - 1`.
pub open spec fn identity_order(n: nat) -> Seq<usize> {
    Seq::new(n, |i: int| i as usize)
}

pub open spec fn keys_of(cands: Seq<Candidate>) -> Seq<int> {
    cands.map_values(|c: Candidate| key_of(c))
}

/// Walks `ord` with `used` bytes already spent, and gives the indices kept
/// from there on and whether the budget was exceeded.
pub open spec fn take_within_budget(
    cands: Seq<Candidate>,
    ord: Seq<usize>,
    limit: Option<usize>,
    used: int,
) -> (Seq<usize>, bool)
    decreases ord.len(),
{
    if ord.len() == 0 {
        (Seq::empty(), false)
    } else {
        let c = cands[ord[0] as int];
        if !c.vertex_inside {
            take_within_budget(cands, ord.drop_first(), limit, used)
        } else {
            let total = used + c.encoded_len;
            if limit is Some && total > limit->0 {
                (seq![ord[0]], true)
            } else {
                let rest = take_within_budget(cands, ord.drop_first(), limit, total);
                (seq![ord[0]] + rest.0, rest.1)
            }
        }
    }
}

/// Sum of the encoded lengths of the first `k` candidates of `ord`.
pub open spec fn prefix_len(cands: Seq<Candidate>, ord: Seq<usize>, k: nat) -> int
    decreases k,
{
    if k == 0 || ord.len() == 0 {
        0
    } else {
        cands[ord[0] as int].encoded_len + prefix_len(cands, ord.drop_first(), (k - 1) as nat)
    }
}

/// A feature with no vertex inside the tile is never retained, even when a
/// segment of it crosses the tile.
pub proof fn lemma_kept_have_vertex_inside(
    cands: Seq<Candidate>,
    ord: Seq<usize>,
    limit: Option<usize>,
    used: int,
)
    ensures
        forall|k: int|
            0 <= k < take_within_budget(cands, ord, limit, used).0.len() ==> cands[take_within_budget(
                cands,
                ord,
                limit,
                used,
            ).0[k] as int].vertex_inside,
    decreases ord.len(),
{
    if ord.len() > 0 {
        let c = cands[ord[0] as int];
        lemma_kept_have_vertex_inside(cands, ord.drop_first(), limit, used);
        lemma_kept_have_vertex_inside(cands, ord.drop_first(), limit, used + c.encoded_len);
    }
}

/// Budget boundary: when every candidate has a vertex inside the tile, the
/// first `n` of them fit in the budget and the next one takes the total over
/// it, exactly those `n + 1` are retained and the tile is marked truncated.
pub proof fn lemma_budget_boundary(
    cands: Seq<Candidate>,
    ord: Seq<usize>,
    limit: usize,
    used: int,
    n: nat,
)
    requires
        n < ord.len(),
        forall|a: int| 0 <= a < ord.len() ==> ord[a] < cands.len(),
        forall|a: int| 0 <= a < ord.len() ==> cands[ord[a] as int].vertex_inside,
        used + prefix_len(cands, ord, n) <= limit,
        used + prefix_len(cands, ord, n + 1) > limit,
    ensures
        take_within_budget(cands, ord, Some(limit), used) == (ord.take(n as int + 1), true),
    decreases n,
{
    let c = cands[ord[0] as int];
    assert(cands[ord[0] as int].vertex_inside);
    let rest = ord.drop_first();
    assert(prefix_len(cands, ord, n + 1) == c.encoded_len + prefix_len(cands, rest, n));
    if n == 0 {
        assert(prefix_len(cands, rest, 0) == 0);
        assert(ord.take(1) =~= seq![ord[0]]);
    } else {
        assert forall|a: int| 0 <= a < rest.len() implies rest[a] < cands.len() && cands[rest[
            a
        ] as int].vertex_inside by {
            assert(rest[a] == ord[a + 1]);
        }
        assert(prefix_len(cands, ord, n) == c.encoded_len + prefix_len(cands, rest, (n - 1) as nat));
        lemma_prefix_len_nonneg(cands, rest, (n - 1) as nat);
        lemma_budget_boundary(cands, rest, limit, used + c.encoded_len, (n - 1) as nat);
        assert(seq![ord[0]] + rest.take(n as int) =~= ord.take(n as int + 1));
    }
}

/// Summed lengths are never negative.
pub proof fn lemma_prefix_len_nonneg(cands: Seq<Candidate>, ord: Seq<usize>, k: nat)
    ensures
        prefix_len(cands, ord, k) >= 0,
    decreases k,
{
    if k > 0 && ord.len() > 0 {
        lemma_prefix_len_nonneg(cands, ord.drop_first(), (k - 1) as nat);
    }
}

/// `v` stands somewhere in `o`.
pub open spec fn lists(o: Seq<usize>, v: int) -> bool {
    exists|a: int| 0 <= a < o.len() && o[a] == v
}

/// A priority order lists every index of `keys`.
proof fn lemma_priority_order_covers(keys: Seq<int>, o: Seq<usize>)
    requires
        is_priority_order(keys, o),
    ensures
        forall|v: int| 0 <= v < keys.len() ==> #[trigger] lists(o, v),
{
    let n = keys.len();
    let oi = o.map_values(|v: usize| v as int);
    assert forall|i: int, j: int| 0 <= i < oi.len() && 0 <= j < oi.len() && i != j implies oi[i]
        != oi[j] by {
        if i < j {
            assert(ranks_before(keys, o[i] as int, o[j] as int));
        } else {
            assert(ranks_before(keys, o[j] as int, o[i] as int));
        }
    }
    assert(oi.no_duplicates());
    oi.unique_seq_to_set();
    lemma_int_range(0, n as int);
    assert forall|v: int| oi.to_set().contains(v) implies set_int_range(0, n as int).contains(v) by {
        let a = choose|a: int| 0 <= a < oi.len() && oi[a] == v;
    }
    lemma_subset_equality(oi.to_set(), set_int_range(0, n as int));
    assert forall|v: int| 0 <= v < keys.len() implies #[trigger] lists(o, v) by {
        assert(set_int_range(0, n as int).contains(v));
        assert(oi.to_set().contains(v));
        let a = choose|a: int| 0 <= a < oi.len() && oi[a] == v;
        assert(o[a] == v);
    }
}

proof fn lemma_priority_orders_agree_below(keys: Seq<int>, o1: Seq<usize>, o2: Seq<usize>, a: int)
    requires
        is_priority_order(keys, o1),
        is_priority_order(keys, o2),
        0 <= a <= o1.len(),
    ensures
        forall|b: int| 0 <= b < a ==> o1[b] == o2[b],
    decreases a,
{
    if a > 0 {
        let i = a - 1;
        lemma_priority_orders_agree_below(keys, o1, o2, i);
        let e1 = o1[i];
        let e2 = o2[i];
        if e1 != e2 {
            lemma_priority_order_covers(keys, o1);
            lemma_priority_order_covers(keys, o2);
            assert(lists(o2, e1 as int));
            assert(lists(o1, e2 as int));
            let b = choose|b: int| 0 <= b < o2.len() && o2[b] == e1 as int;
            let c = choose|c: int| 0 <= c < o1.len() && o1[c] == e2 as int;
            if b < i {
                assert(ranks_before(keys, o1[b] as int, o1[i] as int));
            }
            if c < i {
                assert(ranks_before(keys, o2[c] as int, o2[i] as int));
            }
            assert(ranks_before(keys, o2[i] as int, o2[b] as int));
            assert(ranks_before(keys, o1[i] as int, o1[c] as int));
        }
    }
}

/// The priority order is a function of the keys alone: building a tile twice
/// from the same candidates considers them in the same order, and so retains
/// the same features in the same order.
pub proof fn lemma_priority_order_unique(keys: Seq<int>, o1: Seq<usize>, o2: Seq<usize>)
    requires
        is_priority_order(keys, o1),
        is_priority_order(keys, o2),
    ensures
        o1 == o2,
{
    lemma_priority_orders_agree_below(keys, o1, o2, o1.len() as int);
    assert(o1 =~= o2);
}

/// Puts the indices of `keys` in priority order: descending key, and among
/// equal keys the later index first (an ascending stable sort, reversed).
pub fn priority_order(keys: &Vec<usize>) -> (r: Vec<usize>)
    ensures
        is_priority_order(keys@.map_values(|k: usize| k as int), r@),
{
    let ghost ks = keys@.map_values(|k: usize| k as int);
    let mut r: Vec<usize> = Vec::new();
    let mut i: usize = 0;
    while i < keys.len()
        invariant
            i <= keys.len(),
            ks == keys@.map_values(|k: usize| k as int),
            r@.len() == i,
            forall|a: int| 0 <= a < r@.len() ==> r@[a] < i,
            forall|a: int, b: int|
                0 <= a < b < r@.len() ==> ranks_before(ks, r@[a] as int, r@[b] as int),
        decreases keys.len() - i,
    {
        let k = keys[i];
        let mut p: usize = 0;
        while p < r.len() && keys[r[p]] > k
            invariant
                p <= r@.len(),
                i < keys.len(),
                forall|a: int| 0 <= a < r@.len() ==> r@[a] < i,
                forall|a: int| 0 <= a < p ==> keys@[r@[a] as int] > k,
            decreases r@.len() - p,
        {
            p = p + 1;
        }
        proof {
            // Keys never increase along `r`.
            assert forall|a: int, b: int| 0 <= a < b < r@.len() implies keys@[r@[a] as int]
                >= keys@[r@[b] as int] by {
                assert(ranks_before(ks, r@[a] as int, r@[b] as int));
            }
        }
        let ghost before = r@;
        r.insert(p, i);
        proof {
            assert(r@ == before.insert(p as int, i));
            assert forall|a: int, b: int| 0 <= a < b < r@.len() implies ranks_before(
                ks,
                r@[a] as int,
                r@[b] as int,
            ) by {
                if b < p {
                    assert(ranks_before(ks, before[a] as int, before[b] as int));
                } else if b == p {
                    assert(keys@[before[a] as int] > k);
                } else if a == p {
                    assert(p < before.len());
                    assert(!(keys@[before[p as int] as int] > k));
                    assert(keys@[before[p as int] as int] >= keys@[before[b - 1] as int]);
                } else if a < p {
                    assert(ranks_before(ks, before[a] as int, before[b - 1] as int));
                } else {
                    assert(ranks_before(ks, before[a - 1] as int, before[b - 1] as int));
                }
            }
        }
        i = i + 1;
    }
    r
}

/// Orders the candidates (by priority when `sort_by_priority`, else as given)
/// and keeps those with a vertex inside the tile until the summed encoded
/// length first exceeds `limit_size_bytes`.
pub fn select_features(
    candidates: &Vec<Candidate>,
    sort_by_priority: bool,
    limit_size_bytes: Option<usize>,
) -> (r: TileSelection)
    ensures
        sort_by_priority ==> is_priority_order(keys_of(candidates@), r.order@),
        !sort_by_priority ==> r.order@ == identity_order(candidates@.len()),
        (r.kept@, r.truncated) == take_within_budget(candidates@, r.order@, limit_size_bytes, 0),
{
    let n = candidates.len();
    let mut order: Vec<usize> = Vec::new();
    if sort_by_priority {
        let mut keys: Vec<usize> = Vec::new();
        let mut j: usize = 0;
        while j < n
            invariant
                j <= n == candidates@.len(),
                keys@.len() == j,
                forall|a: int| 0 <= a < j ==> keys@[a] as int == key_of(candidates@[a]),
            decreases n - j,
        {
            let key = match candidates[j].sort_key {
                Some(k) => k,
                None => 0,
            };
            keys.push(key);
            j = j + 1;
        }
        order = priority_order(&keys);
        assert(keys@.map_values(|k: usize| k as int) =~= keys_of(candidates@));
    } else {
        let mut j: usize = 0;
        while j < n
            invariant
                j <= n == candidates@.len(),
                order@ == identity_order(j as nat),
            decreases n - j,
        {
            order.push(j);
            j = j + 1;
            assert(order@ =~= identity_order(j as nat));
        }
    }
    let ghost ord = order@;
    let ghost whole = take_within_budget(candidates@, ord, limit_size_bytes, 0);
    let mut kept: Vec<usize> = Vec::new();
    let mut truncated = false;
    // The running total, held at `usize::MAX + 1` once it passes every budget.
    let cap: u128 = usize::MAX as u128 + 1;
    let mut used: u128 = 0;
    let ghost mut used_total: int = 0;
    let mut i: usize = 0;
    proof {
        assert(ord.skip(0) =~= ord);
    }
    while i < order.len() && !truncated
        invariant
            ord == order@,
            ord.len() == n == candidates@.len(),
            forall|a: int| 0 <= a < ord.len() ==> ord[a] < n,
            i <= ord.len(),
            whole == take_within_budget(candidates@, ord, limit_size_bytes, 0),
            used_total >= 0,
            cap == usize::MAX as u128 + 1,
            used as int == if used_total < cap { used_total } else { cap as int },
            !truncated ==> whole == (
                kept@ + take_within_budget(candidates@, ord.skip(i as int), limit_size_bytes, used_total).0,
                take_within_budget(candidates@, ord.skip(i as int), limit_size_bytes, used_total).1,
            ),
            truncated ==> whole == (kept@, true),
        decreases ord.len() - i,
    {
        let idx = order[i];
        let c = candidates[idx];
        proof {
            assert(ord.skip(i as int).drop_first() =~= ord.skip(i as int + 1));
            assert(ord.skip(i as int)[0] == idx);
        }
        let ghost rest = ord.skip(i as int);
        let ghost old_total = used_total;
        if !c.vertex_inside {
            assert(take_within_budget(candidates@, rest, limit_size_bytes, old_total)
                == take_within_budget(candidates@, ord.skip(i as int + 1), limit_size_bytes, old_total));
        }
        if c.vertex_inside {
            let ghost before = kept@;
            used = if used + c.encoded_len as u128 > cap {
                cap
            } else {
                used + c.encoded_len as u128
            };
            proof {
                used_total = used_total + c.encoded_len;
            }
            kept.push(idx);
            match limit_size_bytes {
                Some(limit) => {
                    if used > limit as u128 {
                        truncated = true;
                        assert(used_total > limit);
                        assert(take_within_budget(candidates@, rest, limit_size_bytes, old_total)
                            == (seq![idx], true));
                        assert(kept@ =~= before + seq![idx]);
                    } else {
                        assert(!(used_total > limit));
                        let ghost tail = take_within_budget(
                            candidates@,
                            ord.skip(i as int + 1),
                            limit_size_bytes,
                            used_total,
                        );
                        assert(take_within_budget(candidates@, rest, limit_size_bytes, old_total)
                            == (seq![idx] + tail.0, tail.1));
                        assert(kept@ =~= before + seq![idx]);
                        assert(kept@ + tail.0 =~= before + (seq![idx] + tail.0));
                    }
                },
                None => {
                    let ghost tail = take_within_budget(
                        candidates@,
                        ord.skip(i as int + 1),
                        limit_size_bytes,
                        used_total,
                    );
                    assert(take_within_budget(candidates@, rest, limit_size_bytes, old_total)
                        == (seq![idx] + tail.0, tail.1));
                    assert(kept@ =~= before + seq![idx]);
                    assert(kept@ + tail.0 =~= before + (seq![idx] + tail.0));
                },
            }
        }
        i = i + 1;
    }
    proof {
        if !truncated {
            assert(ord.skip(i as int).len() == 0);
            assert(kept@ + Seq::<usize>::empty() =~= kept@);
        }
    }
    TileSelection { order, kept, truncated }
}

} // verus!
