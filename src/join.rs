//! Joining match records to the chunk and match annotation tables: each
//! record's query is split into genome and contig, and both annotations are
//! attached by left joins over hashed indexes of the tables.
use std::collections::HashMap;
use vstd::prelude::*;
use vstd::string::*;
use crate::error::{ErrorModel, FulgorError};
use crate::report::{MatchRecord, RecordModel, records_view};
use crate::text::{chars_of, clone_opt, find_char, index_of, opt_view, same_str};

verus! {

broadcast use vstd::std_specs::hash::group_hash_axioms;

/// A row of the chunk annotation table.
pub struct ChunkAnnotation {
    pub query_genome_id: String,
    pub query_contig_id: String,
    pub chunk: u64,
    pub chunk_annotation: Option<String>,
}

pub struct ChunkModel {
    pub genome: Seq<char>,
    pub contig: Seq<char>,
    pub chunk: u64,
    pub annotation: Option<Seq<char>>,
}

impl View for ChunkAnnotation {
    type V = ChunkModel;

    open spec fn view(&self) -> ChunkModel {
        ChunkModel {
            genome: self.query_genome_id@,
            contig: self.query_contig_id@,
            chunk: self.chunk,
            annotation: opt_view(self.chunk_annotation),
        }
    }
}

/// A row of the match annotation table.
pub struct MatchAnnotation {
    pub match_genome_id: String,
    pub match_annotation: Option<String>,
}

pub struct MatchAnnModel {
    pub genome: Seq<char>,
    pub annotation: Option<Seq<char>>,
}

impl View for MatchAnnotation {
    type V = MatchAnnModel;

    open spec fn view(&self) -> MatchAnnModel {
        MatchAnnModel { genome: self.match_genome_id@, annotation: opt_view(self.match_annotation) }
    }
}

/// A record with its query split and both annotations attached.
pub struct JoinedRecord {
    pub query_genome_id: String,
    pub query_contig_id: String,
    pub chunk: u64,
    pub rank: u64,
    pub match_genome_id: String,
    pub chunk_annotation: Option<String>,
    pub match_annotation: Option<String>,
}

pub struct JoinedModel {
    pub genome: Seq<char>,
    pub contig: Seq<char>,
    pub chunk: u64,
    pub rank: u64,
    pub matched: Seq<char>,
    pub chunk_annotation: Option<Seq<char>>,
    pub match_annotation: Option<Seq<char>>,
}

impl View for JoinedRecord {
    type V = JoinedModel;

    open spec fn view(&self) -> JoinedModel {
        JoinedModel {
            genome: self.query_genome_id@,
            contig: self.query_contig_id@,
            chunk: self.chunk,
            rank: self.rank,
            matched: self.match_genome_id@,
            chunk_annotation: opt_view(self.chunk_annotation),
            match_annotation: opt_view(self.match_annotation),
        }
    }
}

pub open spec fn chunks_view(v: Seq<ChunkAnnotation>) -> Seq<ChunkModel> {
    v.map_values(|c: ChunkAnnotation| c@)
}

pub open spec fn match_anns_view(v: Seq<MatchAnnotation>) -> Seq<MatchAnnModel> {
    v.map_values(|m: MatchAnnotation| m@)
}

pub open spec fn joined_view(v: Seq<JoinedRecord>) -> Seq<JoinedModel> {
    v.map_values(|j: JoinedRecord| j@)
}

/// A query split at its first `_` into genome and contig.
pub open spec fn split_query_spec(q: Seq<char>) -> Option<(Seq<char>, Seq<char>)> {
    let k = index_of(q, '_');
    if 0 <= k < q.len() {
        Some((q.subrange(0, k), q.subrange(k + 1, q.len() as int)))
    } else {
        None
    }
}

pub open spec fn chunk_key_match(r: ChunkModel, g: Seq<char>, c: Seq<char>, k: u64) -> bool {
    r.genome == g && r.contig == c && r.chunk == k
}

/// The annotation of the first chunk row with the key (genome, contig, chunk);
/// absent where no row has that key.
pub open spec fn chunk_lookup(rows: Seq<ChunkModel>, g: Seq<char>, c: Seq<char>, k: u64) -> Option<
    Seq<char>,
>
    decreases rows.len(),
{
    if rows.len() == 0 {
        None
    } else if chunk_key_match(rows[0], g, c, k) {
        rows[0].annotation
    } else {
        chunk_lookup(rows.drop_first(), g, c, k)
    }
}

/// The annotation of the first match row for the sequence `m`; an empty
/// match has none.
pub open spec fn match_lookup(rows: Seq<MatchAnnModel>, m: Seq<char>) -> Option<Seq<char>>
    decreases rows.len(),
{
    if m.len() == 0 || rows.len() == 0 {
        None
    } else if rows[0].genome == m {
        rows[0].annotation
    } else {
        match_lookup(rows.drop_first(), m)
    }
}

/// The joined form of one record.
pub open spec fn join_spec(r: RecordModel, chunks: Seq<ChunkModel>, matches: Seq<MatchAnnModel>) -> Result<
    JoinedModel,
    ErrorModel,
> {
    match split_query_spec(r.query) {
        None => Err(ErrorModel::MalformedQueryIdentifier { query: r.query }),
        Some((g, c)) => Ok(
            JoinedModel {
                genome: g,
                contig: c,
                chunk: r.chunk,
                rank: r.rank,
                matched: r.matched,
                chunk_annotation: chunk_lookup(chunks, g, c, r.chunk),
                match_annotation: match_lookup(matches, r.matched),
            },
        ),
    }
}

/// The joined form of every record, in order; the first malformed query decides the error.
pub open spec fn join_all(rs: Seq<RecordModel>, chunks: Seq<ChunkModel>, matches: Seq<MatchAnnModel>) -> Result<
    Seq<JoinedModel>,
    ErrorModel,
>
    decreases rs.len(),
{
    if rs.len() == 0 {
        Ok(Seq::empty())
    } else {
        match join_all(rs.drop_last(), chunks, matches) {
            Err(e) => Err(e),
            Ok(js) => match join_spec(rs.last(), chunks, matches) {
                Err(e) => Err(e),
                Ok(j) => Ok(js.push(j)),
            },
        }
    }
}

/// Splits a query identifier at its first `_` into genome and contig.
pub fn split_query(query: &String) -> (r: Result<(String, String), FulgorError>)
    ensures
        match r {
            Ok((g, c)) => split_query_spec(query@) == Some((g@, c@)),
            Err(e) => split_query_spec(query@) is None && e@ == ErrorModel::MalformedQueryIdentifier { query: query@ },
        },
{
    let q = query.as_str();
    let cs = chars_of(q);
    let n = cs.len();
    let k = find_char(&cs, 0, n, '_');
    assert(cs@.subrange(0, n as int) =~= query@);
    if k == n {
        return Err(FulgorError::MalformedQueryIdentifier { query: query.clone() });
    }
    let g = q.substring_char(0, k).to_owned();
    let c = q.substring_char(k + 1, n).to_owned();
    Ok((g, c))
}

/// `l` lists, in increasing order, positions of `keys` that hold `k`.
pub open spec fn positions_ok(l: Seq<usize>, keys: Seq<u64>, k: u64) -> bool {
    &&& forall|t: int| 0 <= t < l.len() ==> (#[trigger] l[t]) < keys.len() && keys[l[t] as int] == k
    &&& forall|t1: int, t2: int| 0 <= t1 < t2 < l.len() ==> #[trigger] l[t1] < #[trigger] l[t2]
}

/// `m` lists, for each key, every position of `keys` that holds it.
pub open spec fn key_index_wf(m: Map<u64, Vec<usize>>, keys: Seq<u64>) -> bool {
    &&& forall|i: int|
        0 <= i < keys.len() ==> m.contains_key(#[trigger] keys[i]) && m[keys[i]]@.contains(i as usize)
    &&& forall|k: u64| #[trigger] m.contains_key(k) ==> positions_ok(m[k]@, keys, k)
}

/// The positions of `keys` by key.
fn index_by_key(keys: &Vec<u64>) -> (m: HashMap<u64, Vec<usize>>)
    ensures
        key_index_wf(m@, keys@),
{
    let mut m: HashMap<u64, Vec<usize>> = HashMap::new();
    let mut i: usize = 0;
    while i < keys.len()
        invariant
            i <= keys@.len(),
            forall|j: int|
                0 <= j < i ==> m@.contains_key(#[trigger] keys@[j]) && m@[keys@[j]]@.contains(j as usize),
            forall|k: u64|
                #[trigger] m@.contains_key(k) ==> positions_ok(m@[k]@, keys@, k) && forall|t: int|
                    0 <= t < m@[k]@.len() ==> m@[k]@[t] < i,
        decreases keys@.len() - i,
    {
        let k = keys[i];
        let ghost m0 = m@;
        let mut list = match m.remove(&k) {
            Some(l) => l,
            None => Vec::new(),
        };
        let ghost l0 = list@;
        list.push(i);
        m.insert(k, list);
        assert forall|j: int| 0 <= j < i + 1 implies m@.contains_key(#[trigger] keys@[j]) && m@[keys@[j]]@.contains(
            j as usize,
        ) by {
            if j < i {
                assert(m0.contains_key(keys@[j]));
                if keys@[j] == k {
                    let u = choose|u: int| 0 <= u < l0.len() && l0[u] == j as usize;
                    assert(m@[k]@[u] == j as usize);
                }
            } else {
                assert(m@[k]@[l0.len() as int] == i);
            }
        }
        assert forall|kk: u64| #[trigger] m@.contains_key(kk) implies positions_ok(m@[kk]@, keys@, kk) && forall|t: int|
            0 <= t < m@[kk]@.len() ==> m@[kk]@[t] < i + 1 by {
            if kk != k {
                assert(m0.contains_key(kk));
            }
        }
        i = i + 1;
    }
    m
}

/// The modulus of `str_key`, the prime 2^61 - 1.
pub const KEY_MODULUS: u128 = 2305843009213693951;

/// A polynomial hash of the characters of `s`, below `KEY_MODULUS`.
pub open spec fn str_key(s: Seq<char>) -> nat
    decreases s.len(),
{
    if s.len() == 0 {
        0
    } else {
        (str_key(s.drop_last()) * 31 + (s.last() as u32) as nat) % (KEY_MODULUS as nat)
    }
}

pub fn key_of(s: &String) -> (r: u64)
    ensures
        r as nat == str_key(s@),
{
    let cs = chars_of(s.as_str());
    let mut h: u128 = 0;
    let mut i: usize = 0;
    assert(cs@.subrange(0, 0).len() == 0);
    while i < cs.len()
        invariant
            i <= cs@.len(),
            h < KEY_MODULUS,
            h as nat == str_key(cs@.subrange(0, i as int)),
        decreases cs@.len() - i,
    {
        let c = #[verifier::truncate] (cs[i] as u32);
        assert(cs@.subrange(0, i + 1).drop_last() =~= cs@.subrange(0, i as int));
        h = (h * 31 + c as u128) % KEY_MODULUS;
        i = i + 1;
    }
    assert(cs@.subrange(0, i as int) =~= s@);
    h as u64
}

pub open spec fn chunk_keys(rows: Seq<ChunkModel>) -> Seq<u64> {
    rows.map_values(|r: ChunkModel| r.chunk)
}

pub open spec fn match_keys(rows: Seq<MatchAnnModel>) -> Seq<u64> {
    rows.map_values(|r: MatchAnnModel| str_key(r.genome) as u64)
}

fn chunk_key_list(chunks: &Vec<ChunkAnnotation>) -> (r: Vec<u64>)
    ensures
        r@ == chunk_keys(chunks_view(chunks@)),
{
    let mut r: Vec<u64> = Vec::new();
    let mut i: usize = 0;
    while i < chunks.len()
        invariant
            i <= chunks@.len(),
            r@ == chunk_keys(chunks_view(chunks@)).subrange(0, i as int),
        decreases chunks@.len() - i,
    {
        r.push(chunks[i].chunk);
        i = i + 1;
        assert(r@ =~= chunk_keys(chunks_view(chunks@)).subrange(0, i as int));
    }
    assert(r@ =~= chunk_keys(chunks_view(chunks@)));
    r
}

fn match_key_list(matches: &Vec<MatchAnnotation>) -> (r: Vec<u64>)
    ensures
        r@ == match_keys(match_anns_view(matches@)),
{
    let mut r: Vec<u64> = Vec::new();
    let mut i: usize = 0;
    while i < matches.len()
        invariant
            i <= matches@.len(),
            r@ == match_keys(match_anns_view(matches@)).subrange(0, i as int),
        decreases matches@.len() - i,
    {
        r.push(key_of(&matches[i].match_genome_id));
        i = i + 1;
        assert(r@ =~= match_keys(match_anns_view(matches@)).subrange(0, i as int));
    }
    assert(r@ =~= match_keys(match_anns_view(matches@)));
    r
}

proof fn lemma_chunk_lookup_at(rows: Seq<ChunkModel>, g: Seq<char>, c: Seq<char>, k: u64, i: int)
    requires
        0 <= i < rows.len(),
        chunk_key_match(rows[i], g, c, k),
        forall|j: int| 0 <= j < i ==> !chunk_key_match(#[trigger] rows[j], g, c, k),
    ensures
        chunk_lookup(rows, g, c, k) == rows[i].annotation,
    decreases rows.len(),
{
    if i > 0 {
        assert(!chunk_key_match(rows[0], g, c, k));
        assert forall|j: int| 0 <= j < i - 1 implies !chunk_key_match(#[trigger] rows.drop_first()[j], g, c, k) by {
            assert(rows.drop_first()[j] == rows[j + 1]);
        }
        lemma_chunk_lookup_at(rows.drop_first(), g, c, k, i - 1);
    }
}

proof fn lemma_chunk_lookup_none(rows: Seq<ChunkModel>, g: Seq<char>, c: Seq<char>, k: u64)
    requires
        forall|j: int| 0 <= j < rows.len() ==> !chunk_key_match(#[trigger] rows[j], g, c, k),
    ensures
        chunk_lookup(rows, g, c, k) is None,
    decreases rows.len(),
{
    if rows.len() > 0 {
        assert(!chunk_key_match(rows[0], g, c, k));
        assert forall|j: int| 0 <= j < rows.len() - 1 implies !chunk_key_match(#[trigger] rows.drop_first()[j], g, c, k) by {
            assert(rows.drop_first()[j] == rows[j + 1]);
        }
        lemma_chunk_lookup_none(rows.drop_first(), g, c, k);
    }
}

fn find_chunk_annotation(
    chunks: &Vec<ChunkAnnotation>,
    index: &HashMap<u64, Vec<usize>>,
    g: &String,
    c: &String,
    k: u64,
) -> (r: Option<String>)
    requires
        key_index_wf(index@, chunk_keys(chunks_view(chunks@))),
    ensures
        opt_view(r) == chunk_lookup(chunks_view(chunks@), g@, c@, k),
{
    let ghost rows = chunks_view(chunks@);
    let n = chunks.len();
    let list = match index.get(&k) {
        Some(l) => l,
        None => {
            proof {
                assert forall|j: int| 0 <= j < rows.len() implies !chunk_key_match(#[trigger] rows[j], g@, c@, k) by {
                    assert(chunk_keys(rows)[j] == rows[j].chunk);
                }
                lemma_chunk_lookup_none(rows, g@, c@, k);
            }
            return None;
        },
    };
    let ghost keys = chunk_keys(rows);
    assert(positions_ok(list@, keys, k));
    let mut t: usize = 0;
    while t < list.len()
        invariant
            t <= list@.len(),
            rows == chunks_view(chunks@),
            keys == chunk_keys(rows),
            key_index_wf(index@, keys),
            index@.contains_key(k),
            list@ == index@[k]@,
            positions_ok(list@, keys, k),
            n == rows.len(),
            forall|u: int| 0 <= u < t ==> !chunk_key_match(rows[#[trigger] list@[u] as int], g@, c@, k),
        decreases list@.len() - t,
    {
        let p = list[t];
        let row = &chunks[p];
        assert(rows[p as int] == row@);
        if same_str(&row.query_genome_id, g) && same_str(&row.query_contig_id, c) {
            proof {
                assert forall|j: int| 0 <= j < p implies !chunk_key_match(#[trigger] rows[j], g@, c@, k) by {
                    if chunk_key_match(rows[j], g@, c@, k) {
                        assert(keys[j] == k);
                        let u = choose|u: int| 0 <= u < list@.len() && list@[u] == j as usize;
                        if u >= t {
                            if u > t {
                                assert(list@[t as int] < list@[u]);
                            }
                        }
                    }
                }
                lemma_chunk_lookup_at(rows, g@, c@, k, p as int);
            }
            return clone_opt(&row.chunk_annotation);
        }
        t = t + 1;
    }
    proof {
        assert forall|j: int| 0 <= j < rows.len() implies !chunk_key_match(#[trigger] rows[j], g@, c@, k) by {
            if chunk_key_match(rows[j], g@, c@, k) {
                assert(keys[j] == k);
                let u = choose|u: int| 0 <= u < list@.len() && list@[u] == j as usize;
                assert(!chunk_key_match(rows[list@[u] as int], g@, c@, k));
            }
        }
        lemma_chunk_lookup_none(rows, g@, c@, k);
    }
    None
}

proof fn lemma_match_lookup_at(rows: Seq<MatchAnnModel>, m: Seq<char>, i: int)
    requires
        m.len() > 0,
        0 <= i < rows.len(),
        rows[i].genome == m,
        forall|j: int| 0 <= j < i ==> (#[trigger] rows[j]).genome != m,
    ensures
        match_lookup(rows, m) == rows[i].annotation,
    decreases rows.len(),
{
    if i > 0 {
        assert(rows[0].genome != m);
        assert forall|j: int| 0 <= j < i - 1 implies (#[trigger] rows.drop_first()[j]).genome != m by {
            assert(rows.drop_first()[j] == rows[j + 1]);
        }
        lemma_match_lookup_at(rows.drop_first(), m, i - 1);
    }
}

proof fn lemma_match_lookup_none(rows: Seq<MatchAnnModel>, m: Seq<char>)
    requires
        forall|j: int| 0 <= j < rows.len() ==> (#[trigger] rows[j]).genome != m,
    ensures
        match_lookup(rows, m) is None,
    decreases rows.len(),
{
    if rows.len() > 0 && m.len() > 0 {
        assert(rows[0].genome != m);
        assert forall|j: int| 0 <= j < rows.len() - 1 implies (#[trigger] rows.drop_first()[j]).genome != m by {
            assert(rows.drop_first()[j] == rows[j + 1]);
        }
        lemma_match_lookup_none(rows.drop_first(), m);
    }
}

fn find_match_annotation(
    matches: &Vec<MatchAnnotation>,
    index: &HashMap<u64, Vec<usize>>,
    m: &String,
) -> (r: Option<String>)
    requires
        key_index_wf(index@, match_keys(match_anns_view(matches@))),
    ensures
        opt_view(r) == match_lookup(match_anns_view(matches@), m@),
{
    let ghost rows = match_anns_view(matches@);
    let ghost keys = match_keys(rows);
    let n = matches.len();
    if m.as_str().is_empty() {
        return None;
    }
    let k = key_of(m);
    let list = match index.get(&k) {
        Some(l) => l,
        None => {
            proof {
                assert forall|j: int| 0 <= j < rows.len() implies (#[trigger] rows[j]).genome != m@ by {
                    assert(keys[j] == str_key(rows[j].genome) as u64);
                }
                lemma_match_lookup_none(rows, m@);
            }
            return None;
        },
    };
    assert(positions_ok(list@, keys, k));
    let mut t: usize = 0;
    while t < list.len()
        invariant
            t <= list@.len(),
            m@.len() > 0,
            k as nat == str_key(m@),
            rows == match_anns_view(matches@),
            keys == match_keys(rows),
            key_index_wf(index@, keys),
            index@.contains_key(k),
            list@ == index@[k]@,
            positions_ok(list@, keys, k),
            n == rows.len(),
            forall|u: int| 0 <= u < t ==> rows[#[trigger] list@[u] as int].genome != m@,
        decreases list@.len() - t,
    {
        let p = list[t];
        let row = &matches[p];
        assert(rows[p as int] == row@);
        if same_str(&row.match_genome_id, m) {
            proof {
                assert forall|j: int| 0 <= j < p implies (#[trigger] rows[j]).genome != m@ by {
                    if rows[j].genome == m@ {
                        assert(keys[j] == k);
                        assert(index@[keys[j]]@.contains(j as usize));
                        let u = choose|u: int| 0 <= u < list@.len() && list@[u] == j as usize;
                        if u >= t {
                            if u > t {
                                assert(list@[t as int] < list@[u]);
                            }
                        }
                    }
                }
                lemma_match_lookup_at(rows, m@, p as int);
            }
            return clone_opt(&row.match_annotation);
        }
        t = t + 1;
    }
    proof {
        assert forall|j: int| 0 <= j < rows.len() implies (#[trigger] rows[j]).genome != m@ by {
            if rows[j].genome == m@ {
                assert(keys[j] == k);
                assert(index@[keys[j]]@.contains(j as usize));
                let u = choose|u: int| 0 <= u < list@.len() && list@[u] == j as usize;
                assert(rows[list@[u] as int].genome != m@);
            }
        }
        lemma_match_lookup_none(rows, m@);
    }
    None
}

/// Splits each record's query and attaches, by left joins, its chunk's
/// annotation and its match's annotation: one joined record per record.
pub fn add_chunk_metadata(
    records: &Vec<MatchRecord>,
    chunks: &Vec<ChunkAnnotation>,
    matches: &Vec<MatchAnnotation>,
) -> (r: Result<Vec<JoinedRecord>, FulgorError>)
    ensures
        match r {
            Ok(v) => join_all(records_view(records@), chunks_view(chunks@), match_anns_view(matches@))
                == Ok::<Seq<JoinedModel>, ErrorModel>(joined_view(v@)),
            Err(e) => join_all(records_view(records@), chunks_view(chunks@), match_anns_view(matches@))
                == Err::<Seq<JoinedModel>, ErrorModel>(e@),
        },
{
    let ghost rs = records_view(records@);
    let ghost cv = chunks_view(chunks@);
    let ghost mv = match_anns_view(matches@);
    let index = index_by_key(&chunk_key_list(chunks));
    let match_index = index_by_key(&match_key_list(matches));
    let mut out: Vec<JoinedRecord> = Vec::new();
    let mut i: usize = 0;
    assert(joined_view(out@) =~= Seq::<JoinedModel>::empty());
    assert(rs.subrange(0, 0) =~= Seq::<RecordModel>::empty());
    while i < records.len()
        invariant
            i <= records@.len(),
            rs == records_view(records@),
            cv == chunks_view(chunks@),
            mv == match_anns_view(matches@),
            key_index_wf(index@, chunk_keys(cv)),
            key_index_wf(match_index@, match_keys(mv)),
            join_all(rs.subrange(0, i as int), cv, mv) == Ok::<Seq<JoinedModel>, ErrorModel>(
                joined_view(out@),
            ),
        decreases records@.len() - i,
    {
        let rec = &records[i];
        let ghost pre = rs.subrange(0, i + 1);
        assert(pre.drop_last() =~= rs.subrange(0, i as int));
        assert(pre.last() == rec@);
        let (g, c) = match split_query(&rec.query) {
            Ok(gc) => gc,
            Err(e) => {
                proof {
                    lemma_join_prefix_err(rs, pre, cv, mv);
                    assert(rs.subrange(0, rs.len() as int) =~= rs);
                }
                return Err(e);
            },
        };
        let ca = find_chunk_annotation(chunks, &index, &g, &c, rec.chunk);
        let ma = find_match_annotation(matches, &match_index, &rec.matched);
        let j = JoinedRecord {
            query_genome_id: g,
            query_contig_id: c,
            chunk: rec.chunk,
            rank: rec.rank,
            match_genome_id: rec.matched.clone(),
            chunk_annotation: ca,
            match_annotation: ma,
        };
        let ghost before = out@;
        out.push(j);
        assert(joined_view(out@) =~= joined_view(before).push(j@));
        i = i + 1;
    }
    assert(rs.subrange(0, i as int) =~= rs);
    Ok(out)
}

proof fn lemma_join_prefix_err(
    rs: Seq<RecordModel>,
    pre: Seq<RecordModel>,
    chunks: Seq<ChunkModel>,
    matches: Seq<MatchAnnModel>,
)
    requires
        pre.len() <= rs.len(),
        pre == rs.subrange(0, pre.len() as int),
        join_all(pre, chunks, matches) is Err,
    ensures
        join_all(rs, chunks, matches) == join_all(pre, chunks, matches),
    decreases rs.len() - pre.len(),
{
    if pre.len() < rs.len() {
        let longer = rs.subrange(0, pre.len() + 1 as int);
        assert(longer.drop_last() =~= pre);
        lemma_join_prefix_err(rs, longer, chunks, matches);
    } else {
        assert(pre =~= rs);
    }
}

/// The join keeps cardinality: where it succeeds, it gives exactly one
/// joined record per record, each carrying that record's chunk, rank and match.
pub proof fn lemma_join_cardinality(
    rs: Seq<RecordModel>,
    chunks: Seq<ChunkModel>,
    matches: Seq<MatchAnnModel>,
)
    requires
        join_all(rs, chunks, matches) is Ok,
    ensures
        ({
            let js = join_all(rs, chunks, matches)->Ok_0;
            &&& js.len() == rs.len()
            &&& forall|k: int|
                0 <= k < js.len() ==> #[trigger] js[k].chunk == rs[k].chunk && js[k].rank == rs[k].rank
                    && js[k].matched == rs[k].matched
        }),
    decreases rs.len(),
{
    if rs.len() > 0 {
        lemma_join_cardinality(rs.drop_last(), chunks, matches);
        let js = join_all(rs, chunks, matches)->Ok_0;
        let pre = join_all(rs.drop_last(), chunks, matches)->Ok_0;
        let last = join_spec(rs.last(), chunks, matches)->Ok_0;
        assert(js == pre.push(last));
        assert forall|k: int| 0 <= k < js.len() implies #[trigger] js[k].chunk == rs[k].chunk
            && js[k].rank == rs[k].rank && js[k].matched == rs[k].matched by {
            if k < pre.len() {
                assert(js[k] == pre[k]);
                assert(rs.drop_last()[k] == rs[k]);
            }
        }
    }
}

impl JoinedRecord {
    pub fn copy(&self) -> (r: JoinedRecord)
        ensures
            r@ == self@,
    {
        JoinedRecord {
            query_genome_id: self.query_genome_id.clone(),
            query_contig_id: self.query_contig_id.clone(),
            chunk: self.chunk,
            rank: self.rank,
            match_genome_id: self.match_genome_id.clone(),
            chunk_annotation: clone_opt(&self.chunk_annotation),
            match_annotation: clone_opt(&self.match_annotation),
        }
    }
}

} // verus!
