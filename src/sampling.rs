//! Positive and negative records, and the per-genome sampling that bounds
//! the negatives: a negative is kept where its rank within its genome, drawn
//! by a seeded shuffle, is below the genome's positives times a multiplier,
//! so that no genome keeps more negatives than that.
use polars::prelude::NamedFrom;
use vstd::prelude::*;
use crate::join::{JoinedModel, JoinedRecord, joined_view};
use crate::text::same_str;

verus! {

broadcast use {vstd::seq_lib::group_filter_ensures, vstd::seq_lib::group_to_multiset_ensures};

/// How many negatives may be sampled per positive of a genome.
pub const SAMPLE_MULTIPLIER: u64 = 100;

/// The seed of the negative sampling.
pub const SAMPLE_SEED: u64 = 12345;

/// Records whose chunk carries an annotation.
pub open spec fn positives(js: Seq<JoinedModel>) -> Seq<JoinedModel> {
    js.filter(|j: JoinedModel| j.chunk_annotation is Some)
}

/// Records whose chunk carries none.
pub open spec fn negatives(js: Seq<JoinedModel>) -> Seq<JoinedModel> {
    js.filter(|j: JoinedModel| j.chunk_annotation is None)
}

/// How many of `js` belong to genome `g`.
pub open spec fn genome_count(js: Seq<JoinedModel>, g: Seq<char>) -> nat {
    js.filter(|j: JoinedModel| j.genome == g).len()
}

/// The negatives of a genome that may be kept: its positives times `mult`.
pub open spec fn sample_target(pos: Seq<JoinedModel>, g: Seq<char>, mult: u64) -> int {
    genome_count(pos, g) * mult
}

/// The negatives kept: those whose rank within their genome, `ranks[i]` for
/// `negs[i]`, is below their genome's target; order is kept.
pub open spec fn kept_negatives(
    negs: Seq<JoinedModel>,
    ranks: Seq<u64>,
    pos: Seq<JoinedModel>,
    mult: u64,
) -> Seq<JoinedModel>
    decreases negs.len(),
{
    if negs.len() == 0 {
        Seq::empty()
    } else {
        let rest = kept_negatives(negs.drop_last(), ranks, pos, mult);
        let i = negs.len() - 1;
        if (ranks[i] as int) < sample_target(pos, negs[i].genome, mult) {
            rest.push(negs[i])
        } else {
            rest
        }
    }
}

/// Relies on polars' `Series::shuffle`: with a seed, it returns the series'
/// values in a seeded random order, each value kept as often as it occurs.
/// Polars indexes rows with 32 bits, so a series holds at most `u32::MAX` values.
#[verifier::external_body]
fn shuffle_with_seed(values: &Vec<u64>, seed: u64) -> (r: Vec<u64>)
    requires
        values@.len() <= u32::MAX,
    ensures
        r@.to_multiset() == values@.to_multiset(),
{
    let s = polars::prelude::Series::new("", values.clone());
    let shuffled = s.shuffle(Some(seed));
    shuffled.u64().unwrap().into_no_null_iter().collect()
}

/// The records of `js` whose chunk annotation is present (`want`) or absent.
fn split_by_annotation(js: &Vec<JoinedRecord>, want: bool) -> (r: Vec<JoinedRecord>)
    ensures
        joined_view(r@) == joined_view(js@).filter(
            |j: JoinedModel| (j.chunk_annotation is Some) == want,
        ),
{
    let ghost all = joined_view(js@);
    let ghost pred = |j: JoinedModel| (j.chunk_annotation is Some) == want;
    let mut out: Vec<JoinedRecord> = Vec::new();
    let mut i: usize = 0;
    assert(joined_view(out@) =~= all.subrange(0, 0).filter(pred));
    while i < js.len()
        invariant
            i <= js@.len(),
            all == joined_view(js@),
            pred == (|j: JoinedModel| (j.chunk_annotation is Some) == want),
            joined_view(out@) == all.subrange(0, i as int).filter(pred),
        decreases js@.len() - i,
    {
        proof {
            reveal(Seq::filter);
        }
        assert(all.subrange(0, i + 1).drop_last() =~= all.subrange(0, i as int));
        assert(all.subrange(0, i + 1).last() == js@[i as int]@);
        let ghost before = out@;
        if js[i].chunk_annotation.is_some() == want {
            out.push(js[i].copy());
            assert(joined_view(out@) =~= joined_view(before).push(js@[i as int]@));
        }
        i = i + 1;
    }
    assert(all.subrange(0, i as int) =~= all);
    out
}

/// The joined records whose chunk is annotated.
pub fn get_positive_set(js: &Vec<JoinedRecord>) -> (r: Vec<JoinedRecord>)
    ensures
        joined_view(r@) == positives(joined_view(js@)),
{
    let r = split_by_annotation(js, true);
    assert(positives(joined_view(js@)) =~= joined_view(js@).filter(
        |j: JoinedModel| (j.chunk_annotation is Some) == true,
    )) by {
        lemma_filter_ext(joined_view(js@), |j: JoinedModel| j.chunk_annotation is Some, |j: JoinedModel| (j.chunk_annotation is Some) == true);
    }
    r
}

/// The joined records whose chunk is not annotated, before sampling.
pub fn get_unannotated_set(js: &Vec<JoinedRecord>) -> (r: Vec<JoinedRecord>)
    ensures
        joined_view(r@) == negatives(joined_view(js@)),
{
    let r = split_by_annotation(js, false);
    proof {
        lemma_filter_ext(joined_view(js@), |j: JoinedModel| j.chunk_annotation is None, |j: JoinedModel| (j.chunk_annotation is Some) == false);
    }
    r
}

proof fn lemma_filter_ext(s: Seq<JoinedModel>, p: spec_fn(JoinedModel) -> bool, q: spec_fn(JoinedModel) -> bool)
    requires
        forall|j: JoinedModel| #[trigger] p(j) == q(j),
    ensures
        s.filter(p) == s.filter(q),
    decreases s.len(),
{
    reveal(Seq::filter);
    if s.len() > 0 {
        lemma_filter_ext(s.drop_last(), p, q);
        assert(p(s.last()) == q(s.last()));
    }
}

/// How many negatives genome `g` may keep: its positives times `multiplier`.
pub fn sample_target_size(pos: &Vec<JoinedRecord>, g: &String, multiplier: u64) -> (r: u128)
    ensures
        r == sample_target(joined_view(pos@), g@, multiplier),
{
    let ghost all = joined_view(pos@);
    let ghost pred = |j: JoinedModel| j.genome == g@;
    let mut n: u64 = 0;
    let mut i: usize = 0;
    assert(all.subrange(0, 0).filter(pred).len() == 0);
    while i < pos.len()
        invariant
            i <= pos@.len(),
            all == joined_view(pos@),
            pred == (|j: JoinedModel| j.genome == g@),
            n == all.subrange(0, i as int).filter(pred).len(),
        decreases pos@.len() - i,
    {
        proof {
            reveal(Seq::filter);
        }
        assert(all.subrange(0, i + 1).drop_last() =~= all.subrange(0, i as int));
        assert(all.subrange(0, i as int).filter(pred).len() <= i);
        assert(all.subrange(0, i + 1).last() == pos@[i as int]@);
        if same_str(&pos[i].query_genome_id, g) {
            n = n + 1;
        }
        i = i + 1;
    }
    assert(all.subrange(0, i as int) =~= all);
    assert(n * multiplier <= u64::MAX * u64::MAX) by (nonlinear_arith)
        requires
            n <= u64::MAX,
            multiplier <= u64::MAX,
    ;
    let r = (n as u128) * (multiplier as u128);
    assert(r == n * multiplier) by (nonlinear_arith)
        requires
            r == (n as u128) * (multiplier as u128),
            n <= u64::MAX,
            multiplier <= u64::MAX,
    ;
    r
}

/// `ranks` ranks each record of `js` within its genome: for a genome with
/// `n` records, their ranks are `n` distinct values below `n`.
pub open spec fn ranks_valid(js: Seq<JoinedModel>, ranks: Seq<u64>) -> bool {
    &&& ranks.len() == js.len()
    &&& forall|i: int| 0 <= i < js.len() ==> (#[trigger] ranks[i] as int) < genome_count(js, js[i].genome)
    &&& forall|i: int, j: int|
        0 <= i < j < js.len() && js[i].genome == js[j].genome ==> #[trigger] ranks[i] != #[trigger] ranks[j]
}

/// The shuffle of `0, 1, ..., n - 1` holds each of them once.
proof fn lemma_shuffled_range(order: Seq<u64>, shuffled: Seq<u64>)
    requires
        forall|t: int| 0 <= t < order.len() ==> #[trigger] order[t] == t,
        shuffled.to_multiset() == order.to_multiset(),
    ensures
        shuffled.len() == order.len(),
        shuffled.no_duplicates(),
        forall|t: int| 0 <= t < shuffled.len() ==> (#[trigger] shuffled[t] as int) < order.len(),
{
    shuffled.to_multiset_ensures();
    order.to_multiset_ensures();
    assert(shuffled.to_multiset().len() == order.to_multiset().len());
    assert(order.no_duplicates());
    order.lemma_multiset_has_no_duplicates();
    shuffled.lemma_multiset_has_no_duplicates_conv();
    assert forall|t: int| 0 <= t < shuffled.len() implies (#[trigger] shuffled[t] as int) < order.len() by {
        let v = shuffled[t];
        assert(shuffled.contains(v));
        assert(order.to_multiset().count(v) > 0);
        assert(order.contains(v));
        let u = choose|u: int| 0 <= u < order.len() && order[u] == v;
        assert(order[u] == u);
    }
}

/// Ranks the negatives within their genome: for each genome, its negatives in
/// order take the values of a seeded shuffle of 0, 1, ..., count - 1.
#[verifier::spinoff_prover]
pub fn assign_ranks(negs: &Vec<JoinedRecord>, seed: u64) -> (r: Vec<u64>)
    requires
        negs@.len() <= u32::MAX,
    ensures
        ranks_valid(joined_view(negs@), r@),
{
    let ghost jv = joined_view(negs@);
    let n = negs.len();
    let mut ranks: Vec<u64> = Vec::new();
    let mut i: usize = 0;
    while i < n
        invariant
            i <= n,
            ranks@.len() == i,
        decreases n - i,
    {
        ranks.push(0);
        i = i + 1;
    }
    let mut seen: Vec<String> = Vec::new();
    let ghost mut done: Set<Seq<char>> = Set::empty();
    i = 0;
    while i < n
        invariant
            n == negs@.len(),
            n <= u32::MAX,
            jv == joined_view(negs@),
            i <= n,
            ranks@.len() == n,
            forall|j: int| 0 <= j < i ==> done.contains(#[trigger] jv[j].genome),
            forall|k: int| 0 <= k < seen@.len() ==> done.contains(#[trigger] seen@[k]@),
            forall|m: int|
                0 <= m < n && done.contains(jv[m].genome) ==> (#[trigger] ranks@[m] as int) < genome_count(
                    jv,
                    jv[m].genome,
                ),
            forall|a: int, b: int|
                0 <= a < b < n && jv[a].genome == jv[b].genome && done.contains(jv[a].genome)
                    ==> #[trigger] ranks@[a] != #[trigger] ranks@[b],
        decreases n - i,
    {
        let g = &negs[i].query_genome_id;
        assert(jv[i as int].genome == g@);
        let mut known = false;
        let mut j: usize = 0;
        while j < seen.len()
            invariant
                j <= seen@.len(),
                known ==> done.contains(g@),
                forall|k: int| 0 <= k < seen@.len() ==> done.contains(#[trigger] seen@[k]@),
            decreases seen@.len() - j,
        {
            if same_str(&seen[j], g) {
                known = true;
            }
            j = j + 1;
        }
        if !known {
            let ghost pred = |x: JoinedModel| x.genome == g@;
            let mut members: Vec<usize> = Vec::new();
            let mut order: Vec<u64> = Vec::new();
            let ghost mut slot: Map<int, int> = Map::empty();
            let mut k: usize = 0;
            assert(jv.subrange(0, 0).filter(pred).len() == 0);
            while k < n
                invariant
                    n == negs@.len(),
                    n <= u32::MAX,
                    jv == joined_view(negs@),
                    pred == (|x: JoinedModel| x.genome == g@),
                    k <= n,
                    members@.len() == order@.len(),
                    members@.len() == jv.subrange(0, k as int).filter(pred).len(),
                    forall|t: int| 0 <= t < order@.len() ==> #[trigger] order@[t] == t,
                    forall|t: int| 0 <= t < members@.len() ==> (#[trigger] members@[t]) < k,
                    forall|t: int| 0 <= t < members@.len() ==> jv[#[trigger] members@[t] as int].genome == g@,
                    forall|t1: int, t2: int|
                        0 <= t1 < t2 < members@.len() ==> #[trigger] members@[t1] < #[trigger] members@[t2],
                    forall|m: int|
                        0 <= m < k && jv[m].genome == g@ ==> #[trigger] slot.contains_key(m) && 0 <= slot[m]
                            < members@.len() && members@[slot[m]] == m,
                decreases n - k,
            {
                proof {
                    reveal(Seq::filter);
                }
                assert(jv.subrange(0, k + 1).drop_last() =~= jv.subrange(0, k as int));
                assert(jv.subrange(0, k as int).filter(pred).len() <= k);
                assert(jv.subrange(0, k + 1).last() == jv[k as int]);
                assert(jv[k as int] == negs@[k as int]@);
                let ghost old_slot = slot;
                let ghost old_members = members@;
                if same_str(&negs[k].query_genome_id, g) {
                    proof {
                        slot = slot.insert(k as int, members@.len() as int);
                    }
                    order.push(members.len() as u64);
                    members.push(k);
                }
                assert forall|m: int| 0 <= m < k + 1 && jv[m].genome == g@ implies #[trigger] slot.contains_key(m)
                    && 0 <= slot[m] < members@.len() && members@[slot[m]] == m by {
                    if m < k {
                        assert(old_slot.contains_key(m));
                        assert(old_members[old_slot[m]] == m);
                    }
                }
                k = k + 1;
            }
            assert(jv.subrange(0, n as int) =~= jv);
            let shuffled = shuffle_with_seed(&order, seed);
            proof {
                lemma_shuffled_range(order@, shuffled@);
            }
            let ghost before = ranks@;
            let mut t: usize = 0;
            while t < members.len()
                invariant
                    ranks@.len() == n,
                    before.len() == n,
                    shuffled@.len() == members@.len(),
                    t <= members@.len(),
                    forall|u: int| 0 <= u < members@.len() ==> (#[trigger] members@[u]) < n,
                    forall|u: int| 0 <= u < members@.len() ==> jv[#[trigger] members@[u] as int].genome == g@,
                    forall|u1: int, u2: int|
                        0 <= u1 < u2 < members@.len() ==> #[trigger] members@[u1] < #[trigger] members@[u2],
                    forall|u: int| 0 <= u < t ==> ranks@[#[trigger] members@[u] as int] == shuffled@[u],
                    forall|m: int| 0 <= m < n && jv[m].genome != g@ ==> #[trigger] ranks@[m] == before[m],
                decreases members@.len() - t,
            {
                let ghost r0 = ranks@;
                ranks.set(members[t], shuffled[t]);
                assert forall|u: int| 0 <= u < t + 1 implies ranks@[#[trigger] members@[u] as int] == shuffled@[u] by {
                    if u < t {
                        assert(members@[u] < members@[t as int]);
                    }
                }
                t = t + 1;
            }
            proof {
                let cnt = genome_count(jv, g@);
                assert(members@.len() == cnt);
                assert forall|m: int|
                    0 <= m < n && jv[m].genome == g@ implies (#[trigger] ranks@[m] as int) < cnt
                    && ranks@[m] == shuffled@[slot[m]] by {
                    assert(slot.contains_key(m));
                    assert(ranks@[members@[slot[m]] as int] == shuffled@[slot[m]]);
                }
                assert forall|a: int, b: int|
                    0 <= a < b < n && jv[a].genome == jv[b].genome && (done.insert(g@)).contains(jv[a].genome)
                        implies #[trigger] ranks@[a] != #[trigger] ranks@[b] by {
                    if jv[a].genome == g@ {
                        assert(slot.contains_key(a));
                        assert(slot.contains_key(b));
                        assert(ranks@[a] == shuffled@[slot[a]]);
                        assert(ranks@[b] == shuffled@[slot[b]]);
                        assert(slot[a] != slot[b]);
                    } else {
                        assert(ranks@[a] == before[a]);
                        assert(ranks@[b] == before[b]);
                    }
                }
                assert forall|m: int|
                    0 <= m < n && (done.insert(g@)).contains(jv[m].genome) implies (#[trigger] ranks@[m] as int)
                    < genome_count(jv, jv[m].genome) by {
                    if jv[m].genome != g@ {
                        assert(ranks@[m] == before[m]);
                    }
                }
                done = done.insert(g@);
            }
            seen.push(g.clone());
        }
        i = i + 1;
    }
    ranks
}

/// Keeps the negatives whose within-genome rank is below their genome's
/// sample target; order is kept.
pub fn get_negative_set(
    negs: &Vec<JoinedRecord>,
    ranks: &Vec<u64>,
    pos: &Vec<JoinedRecord>,
    multiplier: u64,
) -> (r: Vec<JoinedRecord>)
    requires
        ranks@.len() == negs@.len(),
    ensures
        joined_view(r@) == kept_negatives(joined_view(negs@), ranks@, joined_view(pos@), multiplier),
{
    let ghost all = joined_view(negs@);
    let mut out: Vec<JoinedRecord> = Vec::new();
    let mut i: usize = 0;
    // The target of the genome last seen: records of a genome mostly come together.
    let mut last: Option<(String, u128)> = None;
    assert(joined_view(out@) =~= Seq::<JoinedModel>::empty());
    while i < negs.len()
        invariant
            i <= negs@.len(),
            ranks@.len() == negs@.len(),
            all == joined_view(negs@),
            joined_view(out@) == kept_negatives(all.subrange(0, i as int), ranks@, joined_view(pos@), multiplier),
            match last {
                Some((g, t)) => t == sample_target(joined_view(pos@), g@, multiplier),
                None => true,
            },
        decreases negs@.len() - i,
    {
        let ghost pre = all.subrange(0, i + 1);
        assert(pre.drop_last() =~= all.subrange(0, i as int));
        assert(pre[i as int] == negs@[i as int]@);
        let g = &negs[i].query_genome_id;
        let target = match &last {
            Some((lg, lt)) if same_str(lg, g) => *lt,
            _ => {
                let t = sample_target_size(pos, g, multiplier);
                last = Some((g.clone(), t));
                t
            },
        };
        let ghost before = out@;
        if (ranks[i] as u128) < target {
            out.push(negs[i].copy());
            assert(joined_view(out@) =~= joined_view(before).push(negs@[i as int]@));
        }
        i = i + 1;
    }
    assert(all.subrange(0, i as int) =~= all);
    out
}


/// The ranks below `t` held by the records of genome `g` among the first `n`.
pub open spec fn used_ranks(negs: Seq<JoinedModel>, ranks: Seq<u64>, g: Seq<char>, n: int, t: int) -> Set<int>
    decreases n,
{
    if n <= 0 {
        Set::empty()
    } else {
        let u = used_ranks(negs, ranks, g, n - 1, t);
        if negs[n - 1].genome == g && (ranks[n - 1] as int) < t {
            u.insert(ranks[n - 1] as int)
        } else {
            u
        }
    }
}

proof fn lemma_used_ranks(
    negs: Seq<JoinedModel>,
    ranks: Seq<u64>,
    pos: Seq<JoinedModel>,
    mult: u64,
    g: Seq<char>,
    n: int,
)
    requires
        ranks_valid(negs, ranks),
        0 <= n <= negs.len(),
    ensures
        ({
            let t = sample_target(pos, g, mult);
            let u = used_ranks(negs, ranks, g, n, t);
            &&& u.finite()
            &&& u.subset_of(vstd::set_lib::set_int_range(0, t))
            &&& genome_count(kept_negatives(negs.subrange(0, n), ranks, pos, mult), g) == u.len()
            &&& forall|r: int|
                #[trigger] u.contains(r) ==> exists|i: int|
                    0 <= i < n && negs[i].genome == g && ranks[i] as int == r
        }),
    decreases n,
{
    let t = sample_target(pos, g, mult);
    reveal(Seq::filter);
    if n == 0 {
        assert(kept_negatives(negs.subrange(0, 0), ranks, pos, mult).len() == 0);
    } else {
        lemma_used_ranks(negs, ranks, pos, mult, g, n - 1);
        let u0 = used_ranks(negs, ranks, g, n - 1, t);
        let pre = negs.subrange(0, n);
        assert(pre.drop_last() =~= negs.subrange(0, n - 1));
        assert(pre.last() == negs[n - 1]);
        let k0 = kept_negatives(negs.subrange(0, n - 1), ranks, pos, mult);
        let x = negs[n - 1];
        if (ranks[n - 1] as int) < sample_target(pos, x.genome, mult) {
            assert(kept_negatives(pre, ranks, pos, mult) == k0.push(x));
            assert(k0.push(x).drop_last() =~= k0);
            if x.genome == g {
                let r = ranks[n - 1] as int;
                if u0.contains(r) {
                    let i = choose|i: int| 0 <= i < n - 1 && negs[i].genome == g && ranks[i] as int == r;
                    assert(ranks[i] != ranks[n - 1]);
                }
            }
        }
        let u = used_ranks(negs, ranks, g, n, t);
        assert forall|r: int| #[trigger] u.contains(r) implies exists|i: int|
            0 <= i < n && negs[i].genome == g && ranks[i] as int == r by {
            if u0.contains(r) {
                let i = choose|i: int| 0 <= i < n - 1 && negs[i].genome == g && ranks[i] as int == r;
                assert(0 <= i < n && negs[i].genome == g && ranks[i] as int == r);
            } else {
                assert(negs[n - 1].genome == g && ranks[n - 1] as int == r);
            }
        }
    }
}

/// The sample is a cap: under a ranking that gives the records of each genome
/// distinct ranks, no genome keeps more negatives than its target, its
/// positives times the multiplier.
pub proof fn lemma_sample_cap(
    negs: Seq<JoinedModel>,
    ranks: Seq<u64>,
    pos: Seq<JoinedModel>,
    mult: u64,
    g: Seq<char>,
)
    requires
        ranks_valid(negs, ranks),
    ensures
        genome_count(kept_negatives(negs, ranks, pos, mult), g) <= sample_target(pos, g, mult),
{
    let t = sample_target(pos, g, mult);
    lemma_used_ranks(negs, ranks, pos, mult, g, negs.len() as int);
    assert(negs.subrange(0, negs.len() as int) =~= negs);
    vstd::set_lib::lemma_int_range(0, t);
    vstd::set_lib::lemma_len_subset(
        used_ranks(negs, ranks, g, negs.len() as int, t),
        vstd::set_lib::set_int_range(0, t),
    );
}

} // verus!
