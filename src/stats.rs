//! Enrichment statistics: each match annotation class of the positives gets
//! its positive and negative counts and fold change, and the table is ordered
//! by fold change.
use vstd::prelude::*;
use crate::error::{ErrorModel, FulgorError};
use crate::join::{
    ChunkAnnotation, ChunkModel, JoinedModel, JoinedRecord, MatchAnnModel, MatchAnnotation, add_chunk_metadata,
    chunks_view, join_all, joined_view, lemma_join_cardinality, match_anns_view,
};
use crate::report::{MatchRecord, RecordModel, records_view};
use crate::sampling::{
    SAMPLE_MULTIPLIER, SAMPLE_SEED, assign_ranks, get_negative_set, get_positive_set, get_unannotated_set,
    kept_negatives, negatives, positives, ranks_valid,
};
use crate::text::{clone_opt, opt_view, same_opt};

verus! {

broadcast use {vstd::seq_lib::group_filter_ensures, vstd::seq_lib::group_to_multiset_ensures};

/// How many of `js` have the match annotation `c`.
pub open spec fn class_count(js: Seq<JoinedModel>, c: Option<Seq<char>>) -> nat {
    js.filter(|j: JoinedModel| j.match_annotation == c).len()
}

/// The match annotations of `js`, each once, in order of first appearance.
pub open spec fn distinct_classes(js: Seq<JoinedModel>) -> Seq<Option<Seq<char>>>
    decreases js.len(),
{
    if js.len() == 0 {
        Seq::empty()
    } else {
        let d = distinct_classes(js.drop_last());
        if d.contains(js.last().match_annotation) {
            d
        } else {
            d.push(js.last().match_annotation)
        }
    }
}

/// Whether a fold change compares raw counts or each class's share of its set.
#[derive(Debug, Clone, Copy, PartialEq, Eq, Structural)]
pub enum FoldMode {
    Counts,
    Proportions,
}

/// A fold change before its logarithm: `log2(num / den)`.
#[derive(Debug, Clone, Copy, PartialEq, Eq, Structural)]
pub struct FoldRatio {
    pub num: u128,
    pub den: u128,
}

/// One class of the enrichment table.
pub struct EnrichmentRow {
    pub match_annotation: Option<String>,
    pub pos_count: u64,
    pub neg_count: u64,
    pub fold_change: Option<FoldRatio>,
}

pub struct RowModel {
    pub annotation: Option<Seq<char>>,
    pub pos_count: nat,
    pub neg_count: nat,
    pub fold: Option<(nat, nat)>,
}

impl View for EnrichmentRow {
    type V = RowModel;

    open spec fn view(&self) -> RowModel {
        RowModel {
            annotation: opt_view(self.match_annotation),
            pos_count: self.pos_count as nat,
            neg_count: self.neg_count as nat,
            fold: match self.fold_change {
                Some(f) => Some((f.num as nat, f.den as nat)),
                None => None,
            },
        }
    }
}

pub open spec fn rows_view(v: Seq<EnrichmentRow>) -> Seq<RowModel> {
    v.map_values(|r: EnrichmentRow| r@)
}

/// The fold change of a class as a ratio: absent where either count is zero;
/// in proportions mode each count is divided by its set's total.
pub open spec fn fold_spec(pc: nat, nc: nat, pos_total: nat, neg_total: nat, mode: FoldMode) -> Option<
    (nat, nat),
> {
    if pc == 0 || nc == 0 {
        None
    } else {
        match mode {
            FoldMode::Counts => Some((pc, nc)),
            FoldMode::Proportions => Some((pc * neg_total, nc * pos_total)),
        }
    }
}

/// The row of class `c`. An absent class has no join partner among the
/// negatives, so its negative count is zero.
pub open spec fn row_spec(
    c: Option<Seq<char>>,
    pos: Seq<JoinedModel>,
    kept: Seq<JoinedModel>,
    mode: FoldMode,
) -> RowModel {
    let pc = class_count(pos, c);
    let nc = if c is Some {
        class_count(kept, c)
    } else {
        0
    };
    RowModel {
        annotation: c,
        pos_count: pc,
        neg_count: nc,
        fold: fold_spec(pc, nc, pos.len(), kept.len(), mode),
    }
}

/// One row per class of the positives, in order of first appearance.
pub open spec fn table_spec(pos: Seq<JoinedModel>, kept: Seq<JoinedModel>, mode: FoldMode) -> Seq<
    RowModel,
> {
    distinct_classes(pos).map_values(|c: Option<Seq<char>>| row_spec(c, pos, kept, mode))
}

/// A row with a fold change has both counts positive.
pub open spec fn row_wf(r: RowModel) -> bool {
    r.fold is Some ==> r.pos_count > 0 && r.neg_count > 0
}

/// Whether `a` may stand before `b`: rows without a fold change come last,
/// and fold changes descend. Both modes scale `pos_count / neg_count` by one
/// factor, so that ratio orders them.
pub open spec fn ranks_at_least(a: RowModel, b: RowModel) -> bool {
    match (a.fold, b.fold) {
        (_, None) => true,
        (None, Some(_)) => false,
        (Some(_), Some(_)) => a.pos_count * b.neg_count >= b.pos_count * a.neg_count,
    }
}

pub open spec fn sorted_desc(rs: Seq<RowModel>) -> bool {
    forall|i: int, j: int| 0 <= i < j < rs.len() ==> ranks_at_least(#[trigger] rs[i], #[trigger] rs[j])
}

/// The enrichment table `rows` of the joined records `js`, with `ranks` a
/// within-genome ranking of the negatives: the rows of `table_spec`, stably
/// sorted by fold change.
pub open spec fn enrichment_ok(
    rows: Seq<RowModel>,
    js: Seq<JoinedModel>,
    ranks: Seq<u64>,
    mult: u64,
    mode: FoldMode,
) -> bool {
    let pos = positives(js);
    let kept = kept_negatives(negatives(js), ranks, pos, mult);
    &&& ranks_valid(negatives(js), ranks)
    &&& sorted_desc(rows)
    &&& rows == sort_spec(table_spec(pos, kept, mode))
}

/// How many of `js` carry the match annotation `c`.
pub fn count_class(js: &Vec<JoinedRecord>, c: &Option<String>) -> (r: u64)
    ensures
        r == class_count(joined_view(js@), opt_view(*c)),
{
    let ghost all = joined_view(js@);
    let ghost pred = |j: JoinedModel| j.match_annotation == opt_view(*c);
    let mut n: u64 = 0;
    let mut i: usize = 0;
    assert(all.subrange(0, 0).filter(pred).len() == 0);
    while i < js.len()
        invariant
            i <= js@.len(),
            all == joined_view(js@),
            pred == (|j: JoinedModel| j.match_annotation == opt_view(*c)),
            n == all.subrange(0, i as int).filter(pred).len(),
        decreases js@.len() - i,
    {
        proof {
            reveal(Seq::filter);
        }
        assert(all.subrange(0, i + 1).drop_last() =~= all.subrange(0, i as int));
        assert(all.subrange(0, i as int).filter(pred).len() <= i);
        assert(all.subrange(0, i + 1).last() == js@[i as int]@);
        if same_opt(&js[i].match_annotation, c) {
            n = n + 1;
        }
        i = i + 1;
    }
    assert(all.subrange(0, i as int) =~= all);
    n
}

pub open spec fn opts_view(v: Seq<Option<String>>) -> Seq<Option<Seq<char>>> {
    v.map_values(|o: Option<String>| opt_view(o))
}

fn contains_class(classes: &Vec<Option<String>>, c: &Option<String>) -> (r: bool)
    ensures
        r == opts_view(classes@).contains(opt_view(*c)),
{
    let mut i: usize = 0;
    while i < classes.len()
        invariant
            i <= classes@.len(),
            forall|k: int| 0 <= k < i ==> opts_view(classes@)[k] != opt_view(*c),
        decreases classes@.len() - i,
    {
        if same_opt(&classes[i], c) {
            assert(opts_view(classes@)[i as int] == opt_view(*c));
            return true;
        }
        i = i + 1;
    }
    false
}

/// The match annotations of `js`, each once, in order of first appearance.
pub fn collect_classes(js: &Vec<JoinedRecord>) -> (r: Vec<Option<String>>)
    ensures
        opts_view(r@) == distinct_classes(joined_view(js@)),
{
    let ghost all = joined_view(js@);
    let mut out: Vec<Option<String>> = Vec::new();
    let mut i: usize = 0;
    assert(opts_view(out@) =~= distinct_classes(all.subrange(0, 0)));
    while i < js.len()
        invariant
            i <= js@.len(),
            all == joined_view(js@),
            opts_view(out@) == distinct_classes(all.subrange(0, i as int)),
        decreases js@.len() - i,
    {
        let ghost pre = all.subrange(0, i + 1);
        assert(pre.drop_last() =~= all.subrange(0, i as int));
        assert(pre.last() == js@[i as int]@);
        let c = &js[i].match_annotation;
        if !contains_class(&out, c) {
            let ghost before = out@;
            out.push(clone_opt(c));
            assert(opts_view(out@) =~= opts_view(before).push(opt_view(*c)));
        }
        i = i + 1;
    }
    assert(all.subrange(0, i as int) =~= all);
    out
}

/// The row of class `c` from the positives and the kept negatives.
pub fn class_row(
    c: &Option<String>,
    pos: &Vec<JoinedRecord>,
    kept: &Vec<JoinedRecord>,
    mode: FoldMode,
) -> (r: EnrichmentRow)
    ensures
        r@ == row_spec(opt_view(*c), joined_view(pos@), joined_view(kept@), mode),
{
    let pc = count_class(pos, c);
    let nc = if c.is_some() {
        count_class(kept, c)
    } else {
        0
    };
    let fold = if pc == 0 || nc == 0 {
        None
    } else {
        match mode {
            FoldMode::Counts => Some(FoldRatio { num: pc as u128, den: nc as u128 }),
            FoldMode::Proportions => {
                let pt = pos.len() as u64;
                let nt = kept.len() as u64;
                assert(pc * nt <= u64::MAX * u64::MAX) by (nonlinear_arith)
                    requires
                        pc <= u64::MAX,
                        nt <= u64::MAX,
                ;
                assert(nc * pt <= u64::MAX * u64::MAX) by (nonlinear_arith)
                    requires
                        nc <= u64::MAX,
                        pt <= u64::MAX,
                ;
                Some(FoldRatio { num: pc as u128 * nt as u128, den: nc as u128 * pt as u128 })
            },
        }
    };
    EnrichmentRow { match_annotation: clone_opt(c), pos_count: pc, neg_count: nc, fold_change: fold }
}

proof fn lemma_at_least_total(a: RowModel, b: RowModel)
    ensures
        ranks_at_least(a, b) || ranks_at_least(b, a),
{
}

proof fn lemma_at_least_trans(a: RowModel, b: RowModel, c: RowModel)
    requires
        row_wf(a),
        row_wf(b),
        row_wf(c),
        ranks_at_least(a, b),
        ranks_at_least(b, c),
    ensures
        ranks_at_least(a, c),
{
    if a.fold is Some && b.fold is Some && c.fold is Some {
        let (ap, an, bp, bn, cp, cn) = (
            a.pos_count as int,
            a.neg_count as int,
            b.pos_count as int,
            b.neg_count as int,
            c.pos_count as int,
            c.neg_count as int,
        );
        assert(ap * cn >= cp * an) by (nonlinear_arith)
            requires
                ap > 0,
                an > 0,
                bp > 0,
                bn > 0,
                cp > 0,
                cn > 0,
                ap * bn >= bp * an,
                bp * cn >= cp * bn,
        {
            assert((ap * bn) * (bp * cn) >= (bp * an) * (cp * bn));
            assert((ap * cn) * (bp * bn) >= (cp * an) * (bp * bn));
        }
    }
}

proof fn lemma_insert_multiset<A>(s: Seq<A>, i: int, x: A)
    requires
        0 <= i <= s.len(),
    ensures
        s.insert(i, x).to_multiset() == s.to_multiset().insert(x),
{
    let t = s.insert(i, x);
    assert(t.remove(i) =~= s);
    assert(t[i] == x);
    assert(t.to_multiset().remove(x) == s.to_multiset());
    assert(t.contains(x));
    assert(t.to_multiset().count(x) > 0);
    assert(t.to_multiset() =~= s.to_multiset().insert(x));
}

fn at_least(a: &EnrichmentRow, b: &EnrichmentRow) -> (r: bool)
    ensures
        r == ranks_at_least(a@, b@),
{
    match (a.fold_change, b.fold_change) {
        (_, None) => true,
        (None, Some(_)) => false,
        (Some(_), Some(_)) => {
            let (ap, an, bp, bn) = (a.pos_count, a.neg_count, b.pos_count, b.neg_count);
            assert(ap * bn <= u64::MAX * u64::MAX && bp * an <= u64::MAX * u64::MAX) by (nonlinear_arith)
                requires
                    ap <= u64::MAX,
                    an <= u64::MAX,
                    bp <= u64::MAX,
                    bn <= u64::MAX,
            ;
            let l = a.pos_count as u128 * b.neg_count as u128;
            let r = b.pos_count as u128 * a.neg_count as u128;
            l >= r
        },
    }
}

/// Where `x` goes among the ordered rows `out`: before the first row that it
/// ranks at least as high as, so after every row that ranks strictly higher.
pub open spec fn insert_pos(out: Seq<RowModel>, x: RowModel) -> int
    decreases out.len(),
{
    if out.len() == 0 {
        0
    } else if ranks_at_least(x, out[0]) {
        0
    } else {
        1 + insert_pos(out.drop_first(), x)
    }
}

/// The stable sort of `s` by fold change, descending, rows without one last:
/// each row is placed, from the last to the first, ahead of the rows it ties
/// with, so rows that tie keep their order in `s`.
pub open spec fn sort_spec(s: Seq<RowModel>) -> Seq<RowModel>
    decreases s.len(),
{
    if s.len() == 0 {
        s
    } else {
        let t = sort_spec(s.drop_first());
        t.insert(insert_pos(t, s[0]), s[0])
    }
}

proof fn lemma_insert_pos_at(out: Seq<RowModel>, x: RowModel, p: int)
    requires
        0 <= p <= out.len(),
        forall|k: int| 0 <= k < p ==> !ranks_at_least(x, #[trigger] out[k]),
        p < out.len() ==> ranks_at_least(x, out[p]),
    ensures
        insert_pos(out, x) == p,
    decreases out.len(),
{
    if out.len() > 0 && p > 0 {
        assert(!ranks_at_least(x, out[0]));
        assert forall|k: int| 0 <= k < p - 1 implies !ranks_at_least(x, #[trigger] out.drop_first()[k]) by {
            assert(out.drop_first()[k] == out[k + 1]);
        }
        lemma_insert_pos_at(out.drop_first(), x, p - 1);
    }
}

/// Orders rows by fold change, descending, rows without one last; rows that
/// tie keep their order.
pub fn sort_rows(rows: Vec<EnrichmentRow>) -> (r: Vec<EnrichmentRow>)
    requires
        forall|i: int| 0 <= i < rows@.len() ==> row_wf(#[trigger] rows@[i]@),
    ensures
        sorted_desc(rows_view(r@)),
        rows_view(r@).to_multiset() == rows_view(rows@).to_multiset(),
        rows_view(r@) == sort_spec(rows_view(rows@)),
{
    let ghost orig = rows_view(rows@);
    assert(orig.subrange(orig.len() as int, orig.len() as int) =~= Seq::<RowModel>::empty());
    assert(rows_view(rows@) =~= orig.subrange(0, orig.len() as int));
    let mut rest = rows;
    let mut out: Vec<EnrichmentRow> = Vec::new();
    assert(rows_view(out@) =~= Seq::<RowModel>::empty());
    while rest.len() > 0
        invariant
            forall|i: int| 0 <= i < rest@.len() ==> row_wf(#[trigger] rest@[i]@),
            forall|i: int| 0 <= i < out@.len() ==> row_wf(#[trigger] out@[i]@),
            sorted_desc(rows_view(out@)),
            rows_view(out@).to_multiset().add(rows_view(rest@).to_multiset()) == orig.to_multiset(),
            rest@.len() <= orig.len(),
            rows_view(rest@) == orig.subrange(0, rest@.len() as int),
            rows_view(out@) == sort_spec(orig.subrange(rest@.len() as int, orig.len() as int)),
        decreases rest@.len(),
    {
        let ghost rest0 = rest@;
        let x = rest.pop().unwrap();
        assert(rest0 =~= rest@.push(x));
        assert(rows_view(rest0) =~= rows_view(rest@).push(x@));
        let ghost i = rest@.len() as int;
        assert(rows_view(rest0)[i] == x@);
        assert(orig[i] == x@);
        assert(rows_view(rest@) =~= orig.subrange(0, i));
        let ghost suf = orig.subrange(i, orig.len() as int);
        assert(suf.drop_first() =~= orig.subrange(i + 1, orig.len() as int));
        assert(suf[0] == x@);
        let mut p: usize = 0;
        while p < out.len() && !at_least(&x, &out[p])
            invariant
                p <= out@.len(),
                forall|k: int| 0 <= k < p ==> !ranks_at_least(x@, #[trigger] out@[k]@),
            decreases out@.len() - p,
        {
            p = p + 1;
        }
        let ghost o = rows_view(out@);
        proof {
            assert forall|k: int| 0 <= k < p implies ranks_at_least(#[trigger] o[k], x@) by {
                lemma_at_least_total(x@, o[k]);
            }
            assert forall|k: int| p <= k < o.len() implies ranks_at_least(x@, #[trigger] o[k]) by {
                if k > p {
                    assert(ranks_at_least(o[p as int], o[k]));
                    lemma_at_least_trans(x@, o[p as int], o[k]);
                }
            }
        }
        out.insert(p, x);
        proof {
            let n = rows_view(out@);
            assert(n =~= o.insert(p as int, x@));
            assert forall|i: int, j: int| 0 <= i < j < n.len() implies ranks_at_least(
                #[trigger] n[i],
                #[trigger] n[j],
            ) by {
                if j < p {
                } else if j == p {
                } else if i < p {
                    assert(n[j] == o[j - 1]);
                    lemma_at_least_trans(n[i], x@, n[j]);
                } else if i == p {
                    assert(n[j] == o[j - 1]);
                } else {
                    assert(n[i] == o[i - 1]);
                    assert(n[j] == o[j - 1]);
                }
            }
            lemma_insert_multiset(o, p as int, x@);
            lemma_insert_pos_at(o, x@, p as int);
            assert(n == sort_spec(suf));
            assert(n.to_multiset().add(rows_view(rest@).to_multiset()) =~= o.to_multiset().add(
                rows_view(rest0).to_multiset(),
            ));
        }
    }
    assert(rows_view(rest@) =~= Seq::<RowModel>::empty());
    assert(orig.subrange(0, orig.len() as int) =~= orig);
    assert(rows_view(out@).to_multiset() =~= rows_view(out@).to_multiset().add(rows_view(rest@).to_multiset()));
    out
}

/// The enrichment table of the positives `pos` against the kept negatives
/// `kept`: one row per class of the positives, ordered by fold change.
pub fn calc_fold_change(pos: &Vec<JoinedRecord>, kept: &Vec<JoinedRecord>, mode: FoldMode) -> (r: Vec<
    EnrichmentRow,
>)
    ensures
        sorted_desc(rows_view(r@)),
        rows_view(r@).to_multiset() == table_spec(joined_view(pos@), joined_view(kept@), mode).to_multiset(),
        rows_view(r@) == sort_spec(table_spec(joined_view(pos@), joined_view(kept@), mode)),
{
    let ghost want = table_spec(joined_view(pos@), joined_view(kept@), mode);
    let classes = collect_classes(pos);
    let mut table: Vec<EnrichmentRow> = Vec::new();
    let mut t: usize = 0;
    assert(rows_view(table@) =~= want.subrange(0, 0));
    while t < classes.len()
        invariant
            t <= classes@.len(),
            opts_view(classes@) == distinct_classes(joined_view(pos@)),
            want == table_spec(joined_view(pos@), joined_view(kept@), mode),
            rows_view(table@) == want.subrange(0, t as int),
            forall|i: int| 0 <= i < table@.len() ==> row_wf(#[trigger] table@[i]@),
        decreases classes@.len() - t,
    {
        let row = class_row(&classes[t], pos, kept, mode);
        assert(opts_view(classes@)[t as int] == opt_view(classes@[t as int]));
        assert(want[t as int] == row_spec(opts_view(classes@)[t as int], joined_view(pos@), joined_view(kept@), mode));
        let ghost before = table@;
        table.push(row);
        assert(rows_view(table@) =~= rows_view(before).push(row@));
        assert(want.subrange(0, t + 1) =~= want.subrange(0, t as int).push(want[t as int]));
        assert(rows_view(table@) =~= want.subrange(0, t + 1));
        t = t + 1;
    }
    assert(want.subrange(0, t as int) =~= want);
    sort_rows(table)
}

/// `rows` is an enrichment table of the records `rs` joined to `cs` and `ms`:
/// the join succeeds, and the rows are those of the joined records under
/// some within-genome ranking of the negatives.
pub open spec fn stats_ok(
    rows: Seq<RowModel>,
    rs: Seq<RecordModel>,
    cs: Seq<ChunkModel>,
    ms: Seq<MatchAnnModel>,
    mult: u64,
    mode: FoldMode,
) -> bool {
    match join_all(rs, cs, ms) {
        Ok(js) => exists|ranks: Seq<u64>| enrichment_ok(rows, js, ranks, mult, mode),
        Err(_) => false,
    }
}

/// The whole computation: join, split into positives and negatives, sample
/// the negatives per genome with `seed`, and build the enrichment table.
/// Fails exactly where the join does; otherwise the table is that of the
/// joined records under the within-genome ranks that the shuffle gave.
pub fn process_genomes(
    records: &Vec<MatchRecord>,
    chunks: &Vec<ChunkAnnotation>,
    matches: &Vec<MatchAnnotation>,
    multiplier: u64,
    seed: u64,
    mode: FoldMode,
) -> (r: Result<Vec<EnrichmentRow>, FulgorError>)
    requires
        records@.len() <= u32::MAX,
    ensures
        match r {
            Ok(rows) => stats_ok(
                rows_view(rows@),
                records_view(records@),
                chunks_view(chunks@),
                match_anns_view(matches@),
                multiplier,
                mode,
            ),
            Err(e) => join_all(records_view(records@), chunks_view(chunks@), match_anns_view(matches@))
                == Err::<Seq<JoinedModel>, ErrorModel>(e@),
        },
{
    let joined = match add_chunk_metadata(records, chunks, matches) {
        Ok(j) => j,
        Err(e) => {
            return Err(e);
        },
    };
    let pos = get_positive_set(&joined);
    let negs = get_unannotated_set(&joined);
    proof {
        lemma_join_cardinality(records_view(records@), chunks_view(chunks@), match_anns_view(matches@));
        assert(joined_view(joined@).filter(|j: JoinedModel| j.chunk_annotation is None).len() <= joined_view(joined@).len());
    }
    let ranks = assign_ranks(&negs, seed);
    let kept = get_negative_set(&negs, &ranks, &pos, multiplier);
    let rows = calc_fold_change(&pos, &kept, mode);
    let ghost j = join_all(records_view(records@), chunks_view(chunks@), match_anns_view(matches@));
    assert(j->Ok_0 == joined_view(joined@));
    assert(j is Ok);
    assert(enrichment_ok(rows_view(rows@), j->Ok_0, ranks@, multiplier, mode));
    assert(exists|rk: Seq<u64>| enrichment_ok(rows_view(rows@), j->Ok_0, rk, multiplier, mode));
    Ok(rows)
}

/// `process_genomes` with the sampling multiplier and seed of this library.
pub fn get_stats(
    records: &Vec<MatchRecord>,
    chunks: &Vec<ChunkAnnotation>,
    matches: &Vec<MatchAnnotation>,
    mode: FoldMode,
) -> (r: Result<Vec<EnrichmentRow>, FulgorError>)
    requires
        records@.len() <= u32::MAX,
    ensures
        match r {
            Ok(rows) => stats_ok(
                rows_view(rows@),
                records_view(records@),
                chunks_view(chunks@),
                match_anns_view(matches@),
                SAMPLE_MULTIPLIER,
                mode,
            ),
            Err(e) => join_all(records_view(records@), chunks_view(chunks@), match_anns_view(matches@))
                == Err::<Seq<JoinedModel>, ErrorModel>(e@),
        },
{
    process_genomes(records, chunks, matches, SAMPLE_MULTIPLIER, SAMPLE_SEED, mode)
}

/// The sample and the table are functions of the joined records and the
/// within-genome ranks: two runs that see the same records and the same
/// ranks keep the same negatives and give the same rows in the same order.
pub proof fn lemma_sampling_deterministic(
    js: Seq<JoinedModel>,
    ranks: Seq<u64>,
    mult: u64,
    mode: FoldMode,
    rows1: Seq<RowModel>,
    rows2: Seq<RowModel>,
)
    requires
        enrichment_ok(rows1, js, ranks, mult, mode),
        enrichment_ok(rows2, js, ranks, mult, mode),
    ensures
        rows1 == rows2,
        sorted_desc(rows1),
        sorted_desc(rows2),
{
}

/// A class with no kept negatives, the absent class among them, has no fold
/// change: it is null, never infinite.
pub proof fn lemma_fold_nullability(
    c: Option<Seq<char>>,
    pos: Seq<JoinedModel>,
    kept: Seq<JoinedModel>,
    mode: FoldMode,
)
    requires
        c is None || class_count(kept, c) == 0,
    ensures
        row_spec(c, pos, kept, mode).neg_count == 0,
        row_spec(c, pos, kept, mode).fold is None,
{
}


/// The positive counts of `rows`, added up.
pub open spec fn pos_count_sum(rows: Seq<RowModel>) -> nat
    decreases rows.len(),
{
    if rows.len() == 0 {
        0
    } else {
        pos_count_sum(rows.drop_last()) + rows.last().pos_count
    }
}

/// The class counts in `js` of the classes `cs`, added up.
pub open spec fn class_count_sum(js: Seq<JoinedModel>, cs: Seq<Option<Seq<char>>>) -> nat
    decreases cs.len(),
{
    if cs.len() == 0 {
        0
    } else {
        class_count_sum(js, cs.drop_last()) + class_count(js, cs.last())
    }
}

/// How often `c` occurs in `cs`.
pub open spec fn occurrences(cs: Seq<Option<Seq<char>>>, c: Option<Seq<char>>) -> nat
    decreases cs.len(),
{
    if cs.len() == 0 {
        0
    } else {
        occurrences(cs.drop_last(), c) + if cs.last() == c {
            1nat
        } else {
            0nat
        }
    }
}

proof fn lemma_table_pos_sum(pos: Seq<JoinedModel>, kept: Seq<JoinedModel>, mode: FoldMode, cs: Seq<Option<Seq<char>>>)
    ensures
        pos_count_sum(cs.map_values(|c: Option<Seq<char>>| row_spec(c, pos, kept, mode))) == class_count_sum(pos, cs),
    decreases cs.len(),
{
    if cs.len() > 0 {
        lemma_table_pos_sum(pos, kept, mode, cs.drop_last());
        let f = |c: Option<Seq<char>>| row_spec(c, pos, kept, mode);
        assert(cs.map_values(f).drop_last() =~= cs.drop_last().map_values(f));
    }
}

proof fn lemma_class_count_push(js: Seq<JoinedModel>, c: Option<Seq<char>>)
    requires
        js.len() > 0,
    ensures
        class_count(js, c) == class_count(js.drop_last(), c) + if js.last().match_annotation == c {
            1nat
        } else {
            0nat
        },
{
    reveal(Seq::filter);
}

proof fn lemma_sum_push(js: Seq<JoinedModel>, cs: Seq<Option<Seq<char>>>)
    requires
        js.len() > 0,
    ensures
        class_count_sum(js, cs) == class_count_sum(js.drop_last(), cs) + occurrences(cs, js.last().match_annotation),
    decreases cs.len(),
{
    if cs.len() > 0 {
        lemma_sum_push(js, cs.drop_last());
        lemma_class_count_push(js, cs.last());
    }
}

proof fn lemma_distinct_classes(js: Seq<JoinedModel>)
    ensures
        distinct_classes(js).no_duplicates(),
        forall|i: int| 0 <= i < js.len() ==> distinct_classes(js).contains(#[trigger] js[i].match_annotation),
        forall|c: Option<Seq<char>>| #[trigger] distinct_classes(js).contains(c) ==> class_count(js, c) > 0,
        forall|c: Option<Seq<char>>| !distinct_classes(js).contains(c) ==> #[trigger] class_count(js, c) == 0,
    decreases js.len(),
{
    reveal(Seq::filter);
    if js.len() > 0 {
        let d = distinct_classes(js.drop_last());
        lemma_distinct_classes(js.drop_last());
        let x = js.last().match_annotation;
        assert forall|i: int| 0 <= i < js.len() implies distinct_classes(js).contains(#[trigger] js[i].match_annotation) by {
            if i < js.len() - 1 {
                assert(js.drop_last()[i] == js[i]);
                assert(d.contains(js.drop_last()[i].match_annotation));
                let k = choose|k: int| 0 <= k < d.len() && d[k] == js[i].match_annotation;
                if !d.contains(x) {
                    assert(d.push(x)[k] == js[i].match_annotation);
                }
            } else {
                assert(js[i] == js.last());
                if !d.contains(x) {
                    assert(d.push(x)[d.len() as int] == x);
                }
            }
        }
        assert forall|c: Option<Seq<char>>| #[trigger] distinct_classes(js).contains(c) implies class_count(js, c) > 0 by {
            lemma_class_count_push(js, c);
            if !d.contains(c) {
                let k = choose|k: int| 0 <= k < d.push(x).len() && d.push(x)[k] == c;
                if k < d.len() {
                    assert(d.contains(c));
                }
            }
        }
        assert forall|c: Option<Seq<char>>| !distinct_classes(js).contains(c) implies #[trigger] class_count(js, c) == 0 by {
            lemma_class_count_push(js, c);
            if d.contains(c) {
                let k = choose|k: int| 0 <= k < d.len() && d[k] == c;
                if !d.contains(x) {
                    assert(d.push(x)[k] == c);
                }
            }
            if c == x && !d.contains(x) {
                assert(d.push(x)[d.len() as int] == x);
            }
        }
        if !d.contains(x) {
            assert forall|i: int, j: int| 0 <= i < d.push(x).len() && 0 <= j < d.push(x).len() && i != j implies d.push(x)[i] != d.push(x)[j] by {
                if i < d.len() && j < d.len() {
                } else if i < d.len() {
                    assert(d.contains(d[i]));
                } else {
                    assert(d.contains(d[j]));
                }
            }
        }
    }
}

proof fn lemma_occurrences(cs: Seq<Option<Seq<char>>>, c: Option<Seq<char>>)
    requires
        cs.no_duplicates(),
    ensures
        occurrences(cs, c) == if cs.contains(c) {
            1nat
        } else {
            0nat
        },
    decreases cs.len(),
{
    if cs.len() > 0 {
        let p = cs.drop_last();
        assert forall|i: int, j: int| 0 <= i < p.len() && 0 <= j < p.len() && i != j implies p[i] != p[j] by {
            assert(p[i] == cs[i] && p[j] == cs[j]);
        }
        lemma_occurrences(p, c);
        if p.contains(c) {
            let k = choose|k: int| 0 <= k < p.len() && p[k] == c;
            assert(cs[k] == c);
            if cs.last() == c {
                assert(cs[cs.len() - 1] == cs[k]);
            }
        } else if cs.contains(c) {
            let k = choose|k: int| 0 <= k < cs.len() && cs[k] == c;
            if k < cs.len() - 1 {
                assert(p[k] == c);
            }
        }
    }
}

proof fn lemma_class_sum_all(js: Seq<JoinedModel>)
    ensures
        class_count_sum(js, distinct_classes(js)) == js.len(),
    decreases js.len(),
{
    if js.len() > 0 {
        let p = js.drop_last();
        let x = js.last().match_annotation;
        let d = distinct_classes(p);
        lemma_class_sum_all(p);
        lemma_distinct_classes(p);
        lemma_distinct_classes(js);
        lemma_sum_push(js, distinct_classes(js));
        lemma_occurrences(distinct_classes(js), x);
        assert(js[js.len() - 1].match_annotation == x);
        if !d.contains(x) {
            assert(distinct_classes(js) == d.push(x));
            assert(d.push(x).drop_last() =~= d);
            assert(class_count(p, x) == 0);
        } else {
            assert(distinct_classes(js) == d);
        }
    }
}

/// Every positive lands in exactly one class of the table: the positive
/// counts of its rows add up to the number of positives, the absent class
/// included.
pub proof fn lemma_positive_counts_cover(pos: Seq<JoinedModel>, kept: Seq<JoinedModel>, mode: FoldMode)
    ensures
        pos_count_sum(table_spec(pos, kept, mode)) == pos.len(),
{
    lemma_table_pos_sum(pos, kept, mode, distinct_classes(pos));
    lemma_class_sum_all(pos);
}

} // verus!
