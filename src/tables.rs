//! The tab-separated tables read by the statistics: the tabular match file
//! and the two annotation tables, each with a header line.
use vstd::prelude::*;
use vstd::string::*;
use crate::error::{ErrorModel, FulgorError};
use crate::index::lines_view;
use crate::report::{MatchRecord, RecordModel};
use crate::join::{ChunkAnnotation, ChunkModel, MatchAnnModel, MatchAnnotation};
use crate::text::{chars_of, find_char, parse_u64_at, parse_u64_spec, split};

verus! {

/// An empty field stands for an absent value.
pub open spec fn opt_field(f: Seq<char>) -> Option<Seq<char>> {
    if f.len() == 0 {
        None
    } else {
        Some(f)
    }
}

/// A row `query, chunk, top, match` of the tabular match file.
pub open spec fn tabular_row_spec(line: Seq<char>) -> Result<RecordModel, ErrorModel> {
    let f = split(line, '\t');
    if f.len() != 4 {
        Err(ErrorModel::MalformedRow { line })
    } else {
        match (parse_u64_spec(f[1]), parse_u64_spec(f[2])) {
            (Some(c), Some(t)) => Ok(RecordModel { query: f[0], chunk: c, rank: t, matched: f[3] }),
            _ => Err(ErrorModel::MalformedRow { line }),
        }
    }
}

/// A row `query_genome_id, query_contig_id, chunk, chunk_annotation`.
pub open spec fn chunk_row_spec(line: Seq<char>) -> Result<ChunkModel, ErrorModel> {
    let f = split(line, '\t');
    if f.len() != 4 {
        Err(ErrorModel::MalformedRow { line })
    } else {
        match parse_u64_spec(f[2]) {
            Some(c) => Ok(ChunkModel { genome: f[0], contig: f[1], chunk: c, annotation: opt_field(f[3]) }),
            None => Err(ErrorModel::MalformedRow { line }),
        }
    }
}

/// A row `match_genome_id, match_annotation`.
pub open spec fn match_row_spec(line: Seq<char>) -> Result<MatchAnnModel, ErrorModel> {
    let f = split(line, '\t');
    if f.len() != 2 {
        Err(ErrorModel::MalformedRow { line })
    } else {
        Ok(MatchAnnModel { genome: f[0], annotation: opt_field(f[1]) })
    }
}

/// The bounds of the tab-separated fields of `cs`.
fn field_bounds(cs: &Vec<char>) -> (r: Vec<(usize, usize)>)
    ensures
        r@.len() == split(cs@, '\t').len(),
        forall|k: int|
            0 <= k < r@.len() ==> (#[trigger] r@[k]).0 <= r@[k].1 <= cs@.len() && cs@.subrange(
                r@[k].0 as int,
                r@[k].1 as int,
            ) == split(cs@, '\t')[k],
{
    let n = cs.len();
    let ghost all = split(cs@, '\t');
    let mut out: Vec<(usize, usize)> = Vec::new();
    let mut start: usize = 0;
    assert(cs@.subrange(0, n as int) =~= cs@);
    loop
        invariant
            start <= n,
            n == cs@.len(),
            all == split(cs@, '\t'),
            out@.len() <= start,
            all == out@.map_values(|b: (usize, usize)| cs@.subrange(b.0 as int, b.1 as int)) + split(
                cs@.subrange(start as int, n as int),
                '\t',
            ),
            forall|k: int| 0 <= k < out@.len() ==> (#[trigger] out@[k]).0 <= out@[k].1 <= n,
        decreases n - start,
    {
        let e = find_char(cs, start, n, '\t');
        let ghost tail = cs@.subrange(start as int, n as int);
        let ghost done = out@.map_values(|b: (usize, usize)| cs@.subrange(b.0 as int, b.1 as int));
        proof {
            crate::text::lemma_index_of(tail, '\t');
            assert(tail.subrange(0, e - start) =~= cs@.subrange(start as int, e as int));
        }
        out.push((start, e));
        let ghost now = out@.map_values(|b: (usize, usize)| cs@.subrange(b.0 as int, b.1 as int));
        assert(now =~= done.push(cs@.subrange(start as int, e as int)));
        if e == n {
            assert(split(tail, '\t') =~= seq![cs@.subrange(start as int, e as int)]);
            assert(all =~= now);
            assert forall|k: int|
                0 <= k < out@.len() implies (#[trigger] out@[k]).0 <= out@[k].1 <= cs@.len()
                && cs@.subrange(out@[k].0 as int, out@[k].1 as int) == all[k] by {
                assert(now[k] == cs@.subrange(out@[k].0 as int, out@[k].1 as int));
            }
            return out;
        }
        proof {
            assert(tail.subrange(e - start + 1, tail.len() as int) =~= cs@.subrange(e + 1, n as int));
            assert(all =~= now + split(cs@.subrange(e + 1, n as int), '\t'));
        }
        start = e + 1;
    }
}

fn field_string(line: &str, cs: &Vec<char>, b: (usize, usize)) -> (r: String)
    requires
        cs@ == line@,
        b.0 <= b.1 <= cs@.len(),
    ensures
        r@ == cs@.subrange(b.0 as int, b.1 as int),
{
    line.substring_char(b.0, b.1).to_owned()
}

fn opt_string(line: &str, cs: &Vec<char>, b: (usize, usize)) -> (r: Option<String>)
    requires
        cs@ == line@,
        b.0 <= b.1 <= cs@.len(),
    ensures
        crate::text::opt_view(r) == opt_field(cs@.subrange(b.0 as int, b.1 as int)),
{
    if b.0 == b.1 {
        None
    } else {
        Some(field_string(line, cs, b))
    }
}

/// Reads one row of the tabular match file.
pub fn parse_tabular_row(line: &str) -> (r: Result<MatchRecord, FulgorError>)
    ensures
        match r {
            Ok(rec) => tabular_row_spec(line@) == Ok::<RecordModel, ErrorModel>(rec@),
            Err(e) => tabular_row_spec(line@) == Err::<RecordModel, ErrorModel>(e@),
        },
{
    let cs = chars_of(line);
    let f = field_bounds(&cs);
    if f.len() != 4 {
        return Err(FulgorError::MalformedRow { line: line.to_owned() });
    }
    let chunk = parse_u64_at(&cs, f[1].0, f[1].1);
    let top = parse_u64_at(&cs, f[2].0, f[2].1);
    match (chunk, top) {
        (Some(c), Some(t)) => Ok(
            MatchRecord {
                query: field_string(line, &cs, f[0]),
                chunk: c,
                rank: t,
                matched: field_string(line, &cs, f[3]),
            },
        ),
        _ => Err(FulgorError::MalformedRow { line: line.to_owned() }),
    }
}

/// Reads one row of the chunk annotation table.
pub fn parse_chunk_row(line: &str) -> (r: Result<ChunkAnnotation, FulgorError>)
    ensures
        match r {
            Ok(row) => chunk_row_spec(line@) == Ok::<ChunkModel, ErrorModel>(row@),
            Err(e) => chunk_row_spec(line@) == Err::<ChunkModel, ErrorModel>(e@),
        },
{
    let cs = chars_of(line);
    let f = field_bounds(&cs);
    if f.len() != 4 {
        return Err(FulgorError::MalformedRow { line: line.to_owned() });
    }
    match parse_u64_at(&cs, f[2].0, f[2].1) {
        Some(c) => Ok(
            ChunkAnnotation {
                query_genome_id: field_string(line, &cs, f[0]),
                query_contig_id: field_string(line, &cs, f[1]),
                chunk: c,
                chunk_annotation: opt_string(line, &cs, f[3]),
            },
        ),
        None => Err(FulgorError::MalformedRow { line: line.to_owned() }),
    }
}

/// Reads one row of the match annotation table.
pub fn parse_match_row(line: &str) -> (r: Result<MatchAnnotation, FulgorError>)
    ensures
        match r {
            Ok(row) => match_row_spec(line@) == Ok::<MatchAnnModel, ErrorModel>(row@),
            Err(e) => match_row_spec(line@) == Err::<MatchAnnModel, ErrorModel>(e@),
        },
{
    let cs = chars_of(line);
    let f = field_bounds(&cs);
    if f.len() != 2 {
        return Err(FulgorError::MalformedRow { line: line.to_owned() });
    }
    Ok(
        MatchAnnotation {
            match_genome_id: field_string(line, &cs, f[0]),
            match_annotation: opt_string(line, &cs, f[1]),
        },
    )
}

/// Reads the tabular match file after its header line: it succeeds exactly
/// when every row reads, and then gives them in order.
pub fn read_fulgor_table(lines: &Vec<String>) -> (r: Result<Vec<MatchRecord>, FulgorError>)
    ensures
        match r {
            Ok(v) => v@.len() == (if lines@.len() == 0 { 0 } else { lines@.len() - 1 }) && forall|k: int|
                0 <= k < v@.len() ==> tabular_row_spec(lines_view(lines@)[k + 1]) == Ok::<
                    RecordModel, ErrorModel>(#[trigger] v@[k]@),
            Err(e) => exists|k: int|
                1 <= k < lines@.len() && tabular_row_spec(#[trigger] lines_view(lines@)[k]) == Err::<
                    RecordModel, ErrorModel>(e@),
        },
{
    let mut out: Vec<MatchRecord> = Vec::new();
    let mut i: usize = 1;
    while i < lines.len()
        invariant
            1 <= i,
            i <= lines@.len() || lines@.len() == 0,
            lines@.len() == 0 ==> i == 1,
            out@.len() == i - 1,
            forall|k: int|
                0 <= k < out@.len() ==> tabular_row_spec(lines_view(lines@)[k + 1]) == Ok::<
                    RecordModel, ErrorModel>(#[trigger] out@[k]@),
        decreases lines@.len() - i,
    {
        assert(lines_view(lines@)[i as int] == lines@[i as int]@);
        match parse_tabular_row(lines[i].as_str()) {
            Ok(rec) => {
                out.push(rec);
            },
            Err(e) => {
                return Err(e);
            },
        }
        i = i + 1;
    }
    Ok(out)
}

/// Reads the chunk annotation table after its header line: it succeeds
/// exactly when every row reads, and then gives them in order.
pub fn read_chunk_annotation(lines: &Vec<String>) -> (r: Result<Vec<ChunkAnnotation>, FulgorError>)
    ensures
        match r {
            Ok(v) => v@.len() == (if lines@.len() == 0 { 0 } else { lines@.len() - 1 }) && forall|k: int|
                0 <= k < v@.len() ==> chunk_row_spec(lines_view(lines@)[k + 1]) == Ok::<
                    ChunkModel, ErrorModel>(#[trigger] v@[k]@),
            Err(e) => exists|k: int|
                1 <= k < lines@.len() && chunk_row_spec(#[trigger] lines_view(lines@)[k]) == Err::<
                    ChunkModel, ErrorModel>(e@),
        },
{
    let mut out: Vec<ChunkAnnotation> = Vec::new();
    let mut i: usize = 1;
    while i < lines.len()
        invariant
            1 <= i,
            i <= lines@.len() || lines@.len() == 0,
            lines@.len() == 0 ==> i == 1,
            out@.len() == i - 1,
            forall|k: int|
                0 <= k < out@.len() ==> chunk_row_spec(lines_view(lines@)[k + 1]) == Ok::<
                    ChunkModel, ErrorModel>(#[trigger] out@[k]@),
        decreases lines@.len() - i,
    {
        assert(lines_view(lines@)[i as int] == lines@[i as int]@);
        match parse_chunk_row(lines[i].as_str()) {
            Ok(row) => {
                out.push(row);
            },
            Err(e) => {
                return Err(e);
            },
        }
        i = i + 1;
    }
    Ok(out)
}

/// Reads the match annotation table after its header line: it succeeds
/// exactly when every row reads, and then gives them in order.
pub fn read_match_annotation(lines: &Vec<String>) -> (r: Result<Vec<MatchAnnotation>, FulgorError>)
    ensures
        match r {
            Ok(v) => v@.len() == (if lines@.len() == 0 { 0 } else { lines@.len() - 1 }) && forall|k: int|
                0 <= k < v@.len() ==> match_row_spec(lines_view(lines@)[k + 1]) == Ok::<
                    MatchAnnModel, ErrorModel>(#[trigger] v@[k]@),
            Err(e) => exists|k: int|
                1 <= k < lines@.len() && match_row_spec(#[trigger] lines_view(lines@)[k]) == Err::<
                    MatchAnnModel, ErrorModel>(e@),
        },
{
    let mut out: Vec<MatchAnnotation> = Vec::new();
    let mut i: usize = 1;
    while i < lines.len()
        invariant
            1 <= i,
            i <= lines@.len() || lines@.len() == 0,
            lines@.len() == 0 ==> i == 1,
            out@.len() == i - 1,
            forall|k: int|
                0 <= k < out@.len() ==> match_row_spec(lines_view(lines@)[k + 1]) == Ok::<
                    MatchAnnModel, ErrorModel>(#[trigger] out@[k]@),
        decreases lines@.len() - i,
    {
        assert(lines_view(lines@)[i as int] == lines@[i as int]@);
        match parse_match_row(lines[i].as_str()) {
            Ok(row) => {
                out.push(row);
            },
            Err(e) => {
                return Err(e);
            },
        }
        i = i + 1;
    }
    Ok(out)
}

} // verus!
