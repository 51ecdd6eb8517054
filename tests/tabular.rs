use fulgor_output::error::FulgorError;
use fulgor_output::index::{parse_line, read_mfur_ids, IdentifierIndex};
use fulgor_output::report::{
    as_chunk_id, as_match_id, create_tabular, extract_chunks, parse_fulgor_file, MatchRecord,
    ReportState,
};

fn lines(v: &[&str]) -> Vec<String> {
    v.iter().map(|s| s.to_string()).collect()
}

fn rec(q: &str, chunk: u64, rank: u64, m: &str) -> MatchRecord {
    MatchRecord { query: q.to_string(), chunk, rank, matched: m.to_string() }
}

fn index_of(pairs: &[(u64, &str)]) -> IdentifierIndex {
    let mut ix = IdentifierIndex::new();
    for (k, v) in pairs {
        ix.insert(*k, v.to_string());
    }
    ix
}

#[test]
fn path_and_suffix_are_stripped() {
    assert_eq!(parse_line("0\t/data/genomes/name.fna", ".fna"), Ok((0, "name".to_string())));
    assert_eq!(parse_line("7\tdir/sub/name.fna\textra", ".fna"), Ok((7, "name.fna\textra".to_string())));
}

#[test]
fn other_suffix_is_kept() {
    assert_eq!(parse_line("3\t/p/name.fa", ".fna"), Ok((3, "name.fa".to_string())));
}

#[test]
fn line_without_path_is_kept_whole() {
    assert_eq!(parse_line("4\tname.fna", ".fna"), Ok((4, "4\tname.fna".to_string())));
}

#[test]
fn malformed_index_fails() {
    assert_eq!(parse_line("x\t/p/name.fna", ".fna"), Err(FulgorError::MalformedIndex { line: "x\t/p/name.fna".to_string() }));
    assert_eq!(parse_line("", ".fna"), Err(FulgorError::MalformedIndex { line: String::new() }));
}

#[test]
fn dump_starts_at_first_zero_line() {
    let dump = lines(&["# header", "not data/x.fna", "0\t/p/g0.fna", "1\t/p/g1.fna"]);
    let ix = read_mfur_ids(&dump, ".fna").unwrap();
    assert_eq!(ix.map.len(), 2);
    assert_eq!(ix.map.get(&0).unwrap(), "g0");
    assert_eq!(ix.map.get(&1).unwrap(), "g1");
}

#[test]
fn dump_repeated_index_keeps_last() {
    let dump = lines(&["0\t/p/first.fna", "0\t/p/second.fna"]);
    let ix = read_mfur_ids(&dump, ".fna").unwrap();
    assert_eq!(ix.map.len(), 1);
    assert_eq!(ix.map.get(&0).unwrap(), "second");
}

#[test]
fn dump_bad_data_line_fails() {
    let dump = lines(&["#h", "0\t/p/g0.fna", "oops"]);
    assert_eq!(read_mfur_ids(&dump, ".fna").err(), Some(FulgorError::MalformedIndex { line: "oops".to_string() }));
}

#[test]
fn ids_before_colon() {
    assert_eq!(as_chunk_id("5:0"), Some(5));
    assert_eq!(as_chunk_id("12"), Some(12));
    assert_eq!(as_match_id("10:3:4"), Some(10));
    assert_eq!(as_match_id("+7:1"), Some(7));
    assert_eq!(as_match_id("a:1"), None);
    assert_eq!(as_match_id(":1"), None);
    assert_eq!(as_match_id("18446744073709551615:0"), Some(u64::MAX));
    assert_eq!(as_match_id("18446744073709551616:0"), None);
}

#[test]
fn chunk_line_entries_ranked_in_order() {
    let ix = index_of(&[(10, "geneA")]);
    let got = extract_chunks("chunk_id = 5:0 10:0 ", &"g1_c1".to_string(), &ix).unwrap();
    assert_eq!(got, vec![rec("g1_c1", 5, 1, "geneA"), rec("g1_c1", 5, 2, "")]);
}

#[test]
fn empty_entries_are_kept() {
    let ix = index_of(&[(0, "a"), (2, "c")]);
    let got = extract_chunks("chunk_id = 1:0 0:1  2:3", &"q".to_string(), &ix).unwrap();
    assert_eq!(got, vec![rec("q", 1, 1, "a"), rec("q", 1, 2, ""), rec("q", 1, 3, "c")]);
}

#[test]
fn chunk_line_without_entries() {
    let ix = index_of(&[]);
    assert_eq!(extract_chunks("chunk_id = 9:0", &"q".to_string(), &ix), Ok(vec![]));
}

#[test]
fn missing_index_fails() {
    let ix = index_of(&[(0, "a")]);
    let got = extract_chunks("chunk_id = 4:0 0:1 8:0 9:0", &"q".to_string(), &ix);
    assert_eq!(got, Err(FulgorError::UnknownSequenceIndex { chunk: 4, index: 8 }));
}

#[test]
fn bad_chunk_and_match_ids_fail() {
    let ix = index_of(&[(0, "a")]);
    assert_eq!(extract_chunks("chunk_id = x:0 0:1", &"q".to_string(), &ix), Err(FulgorError::MalformedChunkId { token: "x:0".to_string() }));
    assert_eq!(extract_chunks("chunk_id = 1:0 z:1", &"q".to_string(), &ix), Err(FulgorError::MalformedMatchIndex { entry: "z:1".to_string() }));
}

#[test]
fn state_follows_query_lines() {
    let ix = index_of(&[(0, "a")]);
    let mut st = ReportState::new();
    assert_eq!(st.process_line(">g1_c1", &ix), Ok(vec![]));
    assert_eq!(st.identifier, "g1_c1");
    assert_eq!(st.process_line("something else", &ix), Ok(vec![]));
    assert_eq!(st.process_line("chunk_id = 2:0 0:0", &ix), Ok(vec![rec("g1_c1", 2, 1, "a")]));
    assert_eq!(st.process_line(">g2_c9", &ix), Ok(vec![]));
    assert_eq!(st.identifier, "g2_c9");
}

#[test]
fn report_in_source_order() {
    let ix = index_of(&[(0, "a"), (1, "b")]);
    let report = lines(&["chunk_id = 0:0 1:0", ">g1_c1", "chunk_id = 1:0 0:0 1:0", ">g2_c2", "chunk_id = 2:0 1:0"]);
    let got = parse_fulgor_file(&report, &ix).unwrap();
    assert_eq!(
        got,
        vec![
            rec("", 0, 1, "b"),
            rec("g1_c1", 1, 1, "a"),
            rec("g1_c1", 1, 2, "b"),
            rec("g2_c2", 2, 1, "b"),
        ]
    );
}

#[test]
fn end_to_end_tabular() {
    let report = lines(&[">g1_c1", "chunk_id = 5:0 10:0 "]);
    let dump = lines(&["# fulgor filenames", "0\t/data/other.fna", "10\t/data/geneA.fna"]);
    let got = create_tabular(&report, &dump, ".fna").unwrap();
    assert_eq!(got, vec![rec("g1_c1", 5, 1, "geneA"), rec("g1_c1", 5, 2, "")]);
}

#[test]
fn end_to_end_missing_sequence() {
    let report = lines(&[">g1_c1", "chunk_id = 5:0 11:0"]);
    let dump = lines(&["0\t/data/other.fna"]);
    assert_eq!(
        create_tabular(&report, &dump, ".fna"),
        Err(FulgorError::UnknownSequenceIndex { chunk: 5, index: 11 })
    );
}
