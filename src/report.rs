//! The ranked-match report: query lines (`>id`) open a group, and each chunk
//! line (`chunk_id = c:.. m1:.. m2:..`) gives one record per ranked entry.
use vstd::prelude::*;
use vstd::string::*;
use crate::error::{ErrorModel, FulgorError};
use crate::index::{dump_index, lines_view, read_mfur_ids, IdentifierIndex};
use crate::text::{
    before_first, chars_of, find_char, has_prefix, parse_u64_at, parse_u64_spec, split,
    starts_with_at, strip_prefix,
};

verus! {

/// One ranked entry of a chunk line; `matched` is empty where the entry is.
#[derive(Debug, Clone, PartialEq, Eq)]
pub struct MatchRecord {
    pub query: String,
    pub chunk: u64,
    pub rank: u64,
    pub matched: String,
}

pub struct RecordModel {
    pub query: Seq<char>,
    pub chunk: u64,
    pub rank: u64,
    pub matched: Seq<char>,
}

impl View for MatchRecord {
    type V = RecordModel;

    open spec fn view(&self) -> RecordModel {
        RecordModel { query: self.query@, chunk: self.chunk, rank: self.rank, matched: self.matched@ }
    }
}

pub open spec fn records_view(v: Seq<MatchRecord>) -> Seq<RecordModel> {
    v.map_values(|r: MatchRecord| r@)
}

/// The id before the first `:` of an entry of a chunk line.
pub open spec fn entry_id(entry: Seq<char>) -> Option<u64> {
    parse_u64_spec(before_first(entry, ':'))
}

/// The record of one entry at `rank`.
pub open spec fn entry_record(
    query: Seq<char>,
    chunk: u64,
    rank: int,
    entry: Seq<char>,
    idx: Map<u64, Seq<char>>,
) -> Result<RecordModel, ErrorModel> {
    if entry.len() == 0 {
        Ok(RecordModel { query, chunk, rank: rank as u64, matched: Seq::empty() })
    } else {
        match entry_id(entry) {
            None => Err(ErrorModel::MalformedMatchIndex { entry }),
            Some(m) => if idx.contains_key(m) {
                Ok(RecordModel { query, chunk, rank: rank as u64, matched: idx[m] })
            } else {
                Err(ErrorModel::UnknownSequenceIndex { chunk, index: m })
            },
        }
    }
}

/// The records of `entries`, ranked 1, 2, ... in order; the first entry
/// that fails decides the error.
pub open spec fn entries_records(
    query: Seq<char>,
    chunk: u64,
    entries: Seq<Seq<char>>,
    idx: Map<u64, Seq<char>>,
) -> Result<Seq<RecordModel>, ErrorModel>
    decreases entries.len(),
{
    if entries.len() == 0 {
        Ok(Seq::empty())
    } else {
        match entries_records(query, chunk, entries.drop_last(), idx) {
            Err(e) => Err(e),
            Ok(rs) => match entry_record(query, chunk, entries.len() as int, entries.last(), idx) {
                Err(e) => Err(e),
                Ok(r) => Ok(rs.push(r)),
            },
        }
    }
}

/// The space-separated tokens of a chunk line after its `chunk_id = ` prefix.
pub open spec fn chunk_tokens(line: Seq<char>) -> Seq<Seq<char>> {
    split(strip_prefix(line, "chunk_id = "@), ' ')
}

/// The records of a chunk line within the group `query`.
pub open spec fn chunk_records(query: Seq<char>, line: Seq<char>, idx: Map<u64, Seq<char>>) -> Result<
    Seq<RecordModel>,
    ErrorModel,
> {
    let toks = chunk_tokens(line);
    match entry_id(toks[0]) {
        None => Err(ErrorModel::MalformedChunkId { token: toks[0] }),
        Some(c) => entries_records(query, c, toks.drop_first(), idx),
    }
}

/// One line's effect: the group identifier after it and the records it gives.
pub open spec fn step_spec(ident: Seq<char>, line: Seq<char>, idx: Map<u64, Seq<char>>) -> Result<
    (Seq<char>, Seq<RecordModel>),
    ErrorModel,
> {
    if has_prefix(line, ">"@) {
        Ok((line.drop_first(), Seq::empty()))
    } else if has_prefix(line, "chunk_id"@) {
        match chunk_records(ident, line, idx) {
            Ok(rs) => Ok((ident, rs)),
            Err(e) => Err(e),
        }
    } else {
        Ok((ident, Seq::empty()))
    }
}

/// The records of `lines` read from the group identifier `ident` on.
pub open spec fn report_from(lines: Seq<Seq<char>>, ident: Seq<char>, idx: Map<u64, Seq<char>>) -> Result<
    Seq<RecordModel>,
    ErrorModel,
>
    decreases lines.len(),
{
    if lines.len() == 0 {
        Ok(Seq::empty())
    } else {
        match step_spec(ident, lines[0], idx) {
            Err(e) => Err(e),
            Ok((next, rs)) => match report_from(lines.drop_first(), next, idx) {
                Ok(rest) => Ok(rs + rest),
                Err(e) => Err(e),
            },
        }
    }
}

/// The records of a whole report; the group identifier starts empty.
pub open spec fn report_records(lines: Seq<Seq<char>>, idx: Map<u64, Seq<char>>) -> Result<
    Seq<RecordModel>,
    ErrorModel,
> {
    report_from(lines, Seq::empty(), idx)
}

/// The records of a report read against the identifier dump `dump`.
pub open spec fn tabular_spec(report: Seq<Seq<char>>, dump: Seq<Seq<char>>, suffix: Seq<char>) -> Result<
    Seq<RecordModel>,
    ErrorModel,
> {
    match dump_index(dump, suffix) {
        Err(e) => Err(e),
        Ok(idx) => report_records(report, idx),
    }
}

pub open spec fn prepend(
    done: Seq<RecordModel>,
    r: Result<Seq<RecordModel>, ErrorModel>,
) -> Result<Seq<RecordModel>, ErrorModel> {
    match r {
        Ok(rest) => Ok(done + rest),
        Err(e) => Err(e),
    }
}

/// Reads the chunk id of a token: its digits before the first `:`.
pub fn as_chunk_id(token: &str) -> (r: Option<u64>)
    ensures
        r == entry_id(token@),
{
    let cs = chars_of(token);
    assert(cs@.subrange(0, cs@.len() as int) =~= token@);
    as_match_id_at(&cs, 0, cs.len())
}

/// Reads the sequence index of a match entry: its digits before the first `:`.
pub fn as_match_id(entry: &str) -> (r: Option<u64>)
    ensures
        r == entry_id(entry@),
{
    let cs = chars_of(entry);
    assert(cs@.subrange(0, cs@.len() as int) =~= entry@);
    as_match_id_at(&cs, 0, cs.len())
}

fn as_match_id_at(cs: &Vec<char>, from: usize, to: usize) -> (r: Option<u64>)
    requires
        from <= to <= cs@.len(),
    ensures
        r == entry_id(cs@.subrange(from as int, to as int)),
{
    let colon = find_char(cs, from, to, ':');
    let r = parse_u64_at(cs, from, colon);
    assert(cs@.subrange(from as int, colon as int) =~= before_first(
        cs@.subrange(from as int, to as int),
        ':',
    ));
    r
}

/// The record of the entry `cs[from..to]` at `rank`.
fn entry_at(
    line: &str,
    cs: &Vec<char>,
    from: usize,
    to: usize,
    query: &String,
    chunk: u64,
    rank: u64,
    index: &IdentifierIndex,
) -> (r: Result<MatchRecord, FulgorError>)
    requires
        cs@ == line@,
        from <= to <= cs@.len(),
    ensures
        match r {
            Ok(rec) => entry_record(query@, chunk, rank as int, cs@.subrange(from as int, to as int), index@)
                == Ok::<RecordModel, ErrorModel>(rec@),
            Err(e) => entry_record(query@, chunk, rank as int, cs@.subrange(from as int, to as int), index@)
                == Err::<RecordModel, ErrorModel>(e@),
        },
{
    if from == to {
        return Ok(MatchRecord { query: query.clone(), chunk, rank, matched: String::new() });
    }
    match as_match_id_at(cs, from, to) {
        None => Err(FulgorError::MalformedMatchIndex { entry: line.substring_char(from, to).to_owned() }),
        Some(m) => match index.get(m) {
            Some(id) => Ok(MatchRecord { query: query.clone(), chunk, rank, matched: id.clone() }),
            None => Err(FulgorError::UnknownSequenceIndex { chunk, index: m }),
        },
    }
}

/// The records of one chunk line within the group `identifier`.
pub fn extract_chunks(line: &str, identifier: &String, index: &IdentifierIndex) -> (r: Result<
    Vec<MatchRecord>,
    FulgorError,
>)
    ensures
        match r {
            Ok(v) => chunk_records(identifier@, line@, index@) == Ok::<Seq<RecordModel>, ErrorModel>(records_view(v@)),
            Err(e) => chunk_records(identifier@, line@, index@) == Err::<Seq<RecordModel>, ErrorModel>(e@),
        },
{
    let cs = chars_of(line);
    let n = cs.len();
    let prefix = chars_of("chunk_id = ");
    let base = if starts_with_at(&cs, 0, n, &prefix) {
        prefix.len()
    } else {
        0
    };
    let ghost rest = strip_prefix(line@, "chunk_id = "@);
    assert(cs@.subrange(0, n as int) =~= line@);
    assert(cs@ =~= line@);
    assert(rest =~= cs@.subrange(base as int, n as int));
    let ghost toks = split(rest, ' ');
    let e0 = find_char(&cs, base, n, ' ');
    proof {
        crate::text::lemma_index_of(rest, ' ');
        assert(toks[0] =~= cs@.subrange(base as int, e0 as int));
    }
    let chunk = match as_match_id_at(&cs, base, e0) {
        Some(c) => c,
        None => {
            return Err(FulgorError::MalformedChunkId { token: line.substring_char(base, e0).to_owned() });
        },
    };
    let mut out: Vec<MatchRecord> = Vec::new();
    if e0 == n {
        assert(toks.drop_first() =~= Seq::<Seq<char>>::empty());
        assert(records_view(out@) =~= Seq::<RecordModel>::empty());
        return Ok(out);
    }
    let ghost entries = toks.drop_first();
    assert(entries =~= split(cs@.subrange(e0 + 1, n as int), ' ')) by {
        assert(cs@.subrange(base as int, n as int).subrange(e0 - base + 1, n - base) =~= cs@.subrange(
            e0 + 1,
            n as int,
        ));
    }
    let mut start = e0 + 1;
    let mut rank: u64 = 1;
    let ghost mut done: Seq<Seq<char>> = Seq::empty();
    assert(records_view(out@) =~= Seq::<RecordModel>::empty());
    assert(entries =~= done + split(cs@.subrange(start as int, n as int), ' '));
    assert(chunk_records(identifier@, line@, index@) == entries_records(identifier@, chunk, entries, index@));
    loop
        invariant
            chunk_records(identifier@, line@, index@) == entries_records(identifier@, chunk, entries, index@),
            base <= e0 < start <= n,
            n == cs@.len(),
            cs@ == line@,
            rank == done.len() + 1,
            rank <= start,
            entries == done + split(cs@.subrange(start as int, n as int), ' '),
            entries_records(identifier@, chunk, done, index@) == Ok::<Seq<RecordModel>, ErrorModel>(
                records_view(out@),
            ),
        decreases n - start,
    {
        let e = find_char(&cs, start, n, ' ');
        let ghost tail = cs@.subrange(start as int, n as int);
        let ghost tok = cs@.subrange(start as int, e as int);
        proof {
            crate::text::lemma_index_of(tail, ' ');
            assert(tail.subrange(0, e - start) =~= tok);
            assert(split(tail, ' ')[0] == tok);
            assert((done + split(tail, ' '))[done.len() as int] == tok);
            assert((done.push(tok)).drop_last() =~= done);
            assert(done.push(tok) =~= entries.subrange(0, done.len() + 1 as int));
        }
        let rec = match entry_at(line, &cs, start, e, identifier, chunk, rank, index) {
            Ok(rec) => rec,
            Err(e) => {
                proof {
                    lemma_records_prefix_err(identifier@, chunk, entries, done.push(tok), index@);
                }
                return Err(e);
            },
        };
        let ghost before = out@;
        out.push(rec);
        proof {
            assert(records_view(out@) =~= records_view(before).push(rec@));
            done = done.push(tok);
        }
        if e == n {
            assert(split(tail, ' ') =~= seq![tok]);
            assert(entries =~= done);
            return Ok(out);
        }
        proof {
            assert(tail.subrange(e - start + 1, tail.len() as int) =~= cs@.subrange(e + 1, n as int));
            assert(entries =~= done + split(cs@.subrange(e + 1, n as int), ' '));
        }
        start = e + 1;
        rank = rank + 1;
    }
}

/// Where the records of a prefix of the entries fail, those of all of them fail alike.
proof fn lemma_records_prefix_err(
    query: Seq<char>,
    chunk: u64,
    entries: Seq<Seq<char>>,
    pre: Seq<Seq<char>>,
    idx: Map<u64, Seq<char>>,
)
    requires
        pre.len() <= entries.len(),
        pre == entries.subrange(0, pre.len() as int),
        entries_records(query, chunk, pre, idx) is Err,
    ensures
        entries_records(query, chunk, entries, idx) == entries_records(query, chunk, pre, idx),
    decreases entries.len() - pre.len(),
{
    if pre.len() < entries.len() {
        let longer = entries.subrange(0, pre.len() + 1 as int);
        assert(longer.drop_last() =~= pre);
        lemma_records_prefix_err(query, chunk, entries, longer, idx);
    } else {
        assert(pre =~= entries);
    }
}


/// The state carried from line to line: the identifier of the current query group.
pub struct ReportState {
    pub identifier: String,
}

impl ReportState {
    pub fn new() -> (r: ReportState)
        ensures
            r.identifier@ == Seq::<char>::empty(),
    {
        ReportState { identifier: String::new() }
    }

    /// Reads one report line: a `>` line opens a group, a chunk line gives its
    /// records, any other line gives nothing.
    pub fn process_line(&mut self, line: &str, index: &IdentifierIndex) -> (r: Result<
        Vec<MatchRecord>,
        FulgorError,
    >)
        ensures
            match r {
                Ok(v) => step_spec(old(self).identifier@, line@, index@) == Ok::<
                    (Seq<char>, Seq<RecordModel>), ErrorModel>((final(self).identifier@, records_view(v@))),
                Err(e) => step_spec(old(self).identifier@, line@, index@) == Err::<
                    (Seq<char>, Seq<RecordModel>), ErrorModel>(e@),
            },
    {
        let cs = chars_of(line);
        let n = cs.len();
        assert(cs@.subrange(0, n as int) =~= line@);
        let gt = chars_of(">");
        let tag = chars_of("chunk_id");
        let empty: Vec<MatchRecord> = Vec::new();
        assert(records_view(empty@) =~= Seq::<RecordModel>::empty());
        proof {
            reveal_strlit(">");
        }
        if starts_with_at(&cs, 0, n, &gt) {
            self.identifier = line.substring_char(1, n).to_owned();
            assert(self.identifier@ =~= line@.drop_first());
            Ok(empty)
        } else if starts_with_at(&cs, 0, n, &tag) {
            extract_chunks(line, &self.identifier, index)
        } else {
            Ok(empty)
        }
    }
}

/// Reads a whole report against `index`, in order.
pub fn parse_fulgor_file(lines: &Vec<String>, index: &IdentifierIndex) -> (r: Result<
    Vec<MatchRecord>,
    FulgorError,
>)
    ensures
        match r {
            Ok(v) => report_records(lines_view(lines@), index@) == Ok::<Seq<RecordModel>, ErrorModel>(records_view(v@)),
            Err(e) => report_records(lines_view(lines@), index@) == Err::<Seq<RecordModel>, ErrorModel>(e@),
        },
{
    let ghost all = lines_view(lines@);
    let mut state = ReportState::new();
    let mut out: Vec<MatchRecord> = Vec::new();
    let mut i: usize = 0;
    assert(all.subrange(0, all.len() as int) =~= all);
    assert(records_view(out@) =~= Seq::<RecordModel>::empty());
    while i < lines.len()
        invariant
            i <= lines@.len(),
            all == lines_view(lines@),
            report_records(all, index@) == prepend(
                records_view(out@),
                report_from(all.subrange(i as int, all.len() as int), state.identifier@, index@),
            ),
        decreases lines@.len() - i,
    {
        let ghost rest = all.subrange(i as int, all.len() as int);
        assert(rest[0] == lines@[i as int]@);
        assert(rest.drop_first() =~= all.subrange(i + 1, all.len() as int));
        let ghost id0 = state.identifier@;
        let recs = state.process_line(lines[i].as_str(), index);
        match recs {
            Ok(mut recs) => {
                let ghost before = out@;
                let ghost got = recs@;
                out.append(&mut recs);
                assert(records_view(out@) =~= records_view(before) + records_view(got));
                proof {
                    lemma_prepend_assoc(
                        records_view(before),
                        records_view(got),
                        report_from(rest.drop_first(), state.identifier@, index@),
                    );
                }
            },
            Err(e) => {
                return Err(e);
            },
        }
        i = i + 1;
    }
    assert(all.subrange(i as int, all.len() as int).len() == 0);
    assert(records_view(out@) + Seq::<RecordModel>::empty() =~= records_view(out@));
    Ok(out)
}

proof fn lemma_prepend_assoc(
    a: Seq<RecordModel>,
    b: Seq<RecordModel>,
    r: Result<Seq<RecordModel>, ErrorModel>,
)
    ensures
        prepend(a, prepend(b, r)) == prepend(a + b, r),
{
    if r is Ok {
        assert(a + (b + r->Ok_0) =~= (a + b) + r->Ok_0);
    }
}

/// Reads the identifier dump and then the report against it.
pub fn create_tabular(report: &Vec<String>, dump: &Vec<String>, suffix: &str) -> (r: Result<
    Vec<MatchRecord>,
    FulgorError,
>)
    ensures
        match r {
            Ok(v) => tabular_spec(lines_view(report@), lines_view(dump@), suffix@)
                == Ok::<Seq<RecordModel>, ErrorModel>(records_view(v@)),
            Err(e) => tabular_spec(lines_view(report@), lines_view(dump@), suffix@)
                == Err::<Seq<RecordModel>, ErrorModel>(e@),
        },
{
    let index = read_mfur_ids(dump, suffix)?;
    parse_fulgor_file(report, &index)
}

/// A chunk line whose records are read gives one record per entry after the
/// chunk id, ranked 1 to N in the order of the entries, empty entries included.
pub proof fn lemma_rank_preservation(
    query: Seq<char>,
    chunk: u64,
    entries: Seq<Seq<char>>,
    idx: Map<u64, Seq<char>>,
)
    requires
        entries_records(query, chunk, entries, idx) is Ok,
    ensures
        ({
            let rs = entries_records(query, chunk, entries, idx)->Ok_0;
            &&& rs.len() == entries.len()
            &&& forall|k: int| 0 <= k < rs.len() ==> #[trigger] rs[k].rank == (k + 1) as u64
            &&& forall|k: int|
                0 <= k < rs.len() && entries[k].len() == 0 ==> #[trigger] rs[k].matched == Seq::<char>::empty()
        }),
    decreases entries.len(),
{
    if entries.len() > 0 {
        lemma_rank_preservation(query, chunk, entries.drop_last(), idx);
        let rs = entries_records(query, chunk, entries, idx)->Ok_0;
        let pre = entries_records(query, chunk, entries.drop_last(), idx)->Ok_0;
        let last = entry_record(query, chunk, entries.len() as int, entries.last(), idx)->Ok_0;
        assert(rs == pre.push(last));
        assert(pre.len() == entries.len() - 1);
        assert(rs[pre.len() as int] == last);
        assert(entries[pre.len() as int] == entries.last());
        assert forall|k: int| 0 <= k < rs.len() implies #[trigger] rs[k].rank == (k + 1) as u64 by {
            if k < pre.len() {
                assert(rs[k] == pre[k]);
                assert(pre[k].rank == rs[k].rank);
            }
        }
        assert forall|k: int|
            0 <= k < rs.len() && entries[k].len() == 0 implies #[trigger] rs[k].matched == Seq::<char>::empty() by {
            if k < pre.len() {
                assert(rs[k] == pre[k]);
                assert(entries.drop_last()[k] == entries[k]);
            }
        }
    }
}

/// An entry whose index the identifier mapping lacks is never dropped: the
/// records of its chunk line fail, with `UnknownSequenceIndex` where it is
/// the first entry that fails.
pub proof fn lemma_missing_index_fails(
    query: Seq<char>,
    chunk: u64,
    entries: Seq<Seq<char>>,
    idx: Map<u64, Seq<char>>,
    k: int,
)
    requires
        0 <= k < entries.len(),
        entries[k].len() > 0,
        entry_id(entries[k]) is Some,
        !idx.contains_key(entry_id(entries[k])->0),
    ensures
        entries_records(query, chunk, entries, idx) is Err,
        entries_records(query, chunk, entries.subrange(0, k), idx) is Ok ==> entries_records(
            query,
            chunk,
            entries,
            idx,
        ) == Err::<Seq<RecordModel>, ErrorModel>(
            ErrorModel::UnknownSequenceIndex { chunk, index: entry_id(entries[k])->0 },
        ),
    decreases entries.len(),
{
    let pre = entries.subrange(0, k + 1);
    assert(pre.drop_last() =~= entries.subrange(0, k));
    if entries_records(query, chunk, pre, idx) is Err {
        lemma_records_prefix_err(query, chunk, entries, pre, idx);
    }
}

/// A chunk line that reads gives exactly one record per entry after its chunk
/// id, ranked 1 to N in the order of the entries; an empty entry gives a record
/// with an empty match.
pub proof fn lemma_chunk_line_ranks(query: Seq<char>, line: Seq<char>, idx: Map<u64, Seq<char>>)
    requires
        chunk_records(query, line, idx) is Ok,
    ensures
        ({
            let toks = chunk_tokens(line);
            let rs = chunk_records(query, line, idx)->Ok_0;
            &&& rs.len() == toks.len() - 1
            &&& forall|k: int| 0 <= k < rs.len() ==> #[trigger] rs[k].rank == (k + 1) as u64
            &&& forall|k: int|
                0 <= k < rs.len() && toks[k + 1].len() == 0 ==> #[trigger] rs[k].matched == Seq::<char>::empty()
        }),
{
    let toks = chunk_tokens(line);
    let c = entry_id(toks[0])->0;
    lemma_rank_preservation(query, c, toks.drop_first(), idx);
    let rs = chunk_records(query, line, idx)->Ok_0;
    let es = toks.drop_first();
    assert forall|k: int|
        0 <= k < rs.len() && toks[k + 1].len() == 0 implies #[trigger] rs[k].matched == Seq::<char>::empty() by {
        assert(es[k] == toks[k + 1]);
    }
}

/// A chunk line with an entry whose index the identifier mapping lacks never
/// reads: the record is not dropped. Where the chunk id reads and no earlier
/// entry fails, the error is `UnknownSequenceIndex` for that entry.
pub proof fn lemma_chunk_line_missing_index(
    query: Seq<char>,
    line: Seq<char>,
    idx: Map<u64, Seq<char>>,
    k: int,
)
    requires
        1 <= k < chunk_tokens(line).len(),
        chunk_tokens(line)[k].len() > 0,
        entry_id(chunk_tokens(line)[k]) is Some,
        !idx.contains_key(entry_id(chunk_tokens(line)[k])->0),
    ensures
        chunk_records(query, line, idx) is Err,
        entry_id(chunk_tokens(line)[0]) is Some && entries_records(
            query,
            entry_id(chunk_tokens(line)[0])->0,
            chunk_tokens(line).subrange(1, k),
            idx,
        ) is Ok ==> chunk_records(query, line, idx) == Err::<Seq<RecordModel>, ErrorModel>(
            ErrorModel::UnknownSequenceIndex {
                chunk: entry_id(chunk_tokens(line)[0])->0,
                index: entry_id(chunk_tokens(line)[k])->0,
            },
        ),
{
    let toks = chunk_tokens(line);
    if entry_id(toks[0]) is Some {
        let entries = toks.drop_first();
        assert(entries[k - 1] == toks[k]);
        assert(entries.subrange(0, k - 1) =~= toks.subrange(1, k));
        lemma_missing_index_fails(query, entry_id(toks[0])->0, entries, idx, k - 1);
    }
}

} // verus!
