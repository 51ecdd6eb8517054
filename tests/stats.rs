use fulgor_output::error::FulgorError;
use fulgor_output::report::MatchRecord;
use fulgor_output::join::{
    add_chunk_metadata, key_of, split_query, ChunkAnnotation, JoinedRecord, MatchAnnotation,
};
use fulgor_output::sampling::{
    assign_ranks, get_negative_set, get_positive_set, get_unannotated_set, sample_target_size,
};
use fulgor_output::stats::{calc_fold_change, get_stats, process_genomes, EnrichmentRow, FoldMode, FoldRatio};
use fulgor_output::tables::{
    parse_chunk_row, parse_match_row, parse_tabular_row, read_chunk_annotation,
    read_fulgor_table, read_match_annotation,
};

fn rec(q: &str, chunk: u64, rank: u64, m: &str) -> MatchRecord {
    MatchRecord { query: q.to_string(), chunk, rank, matched: m.to_string() }
}

fn chunk_ann(g: &str, c: &str, chunk: u64, a: Option<&str>) -> ChunkAnnotation {
    ChunkAnnotation {
        query_genome_id: g.to_string(),
        query_contig_id: c.to_string(),
        chunk,
        chunk_annotation: a.map(|s| s.to_string()),
    }
}

fn match_ann(m: &str, a: Option<&str>) -> MatchAnnotation {
    MatchAnnotation { match_genome_id: m.to_string(), match_annotation: a.map(|s| s.to_string()) }
}

fn find<'a>(rows: &'a [EnrichmentRow], class: Option<&str>) -> &'a EnrichmentRow {
    rows.iter().find(|r| r.match_annotation.as_deref() == class).unwrap()
}

fn lines(v: &[&str]) -> Vec<String> {
    v.iter().map(|s| s.to_string()).collect()
}

#[test]
fn query_splits_at_first_underscore() {
    assert_eq!(split_query(&"g1_c1".to_string()), Ok(("g1".to_string(), "c1".to_string())));
    assert_eq!(split_query(&"g1_c1_x".to_string()), Ok(("g1".to_string(), "c1_x".to_string())));
    assert_eq!(split_query(&"g1c1".to_string()), Err(FulgorError::MalformedQueryIdentifier { query: "g1c1".to_string() }));
}

#[test]
fn join_keeps_every_record() {
    let records = vec![rec("g1_c1", 5, 1, "geneA"), rec("g1_c1", 5, 2, ""), rec("g2_c1", 5, 1, "geneB")];
    let chunks = vec![chunk_ann("g1", "c1", 5, Some("AMR")), chunk_ann("g1", "c1", 6, Some("X"))];
    let matches = vec![match_ann("geneA", Some("resistance"))];
    let joined = add_chunk_metadata(&records, &chunks, &matches).unwrap();
    assert_eq!(joined.len(), records.len());
    assert_eq!(joined[0].chunk_annotation.as_deref(), Some("AMR"));
    assert_eq!(joined[0].match_annotation.as_deref(), Some("resistance"));
    assert_eq!(joined[1].chunk_annotation.as_deref(), Some("AMR"));
    assert_eq!(joined[1].match_annotation, None);
    assert_eq!(joined[2].query_genome_id, "g2");
    assert_eq!(joined[2].chunk_annotation, None);
    assert_eq!(joined[2].match_annotation, None);
}

#[test]
fn join_rejects_malformed_query() {
    let records = vec![rec("g1_c1", 5, 1, "geneA"), rec("nounderscore", 5, 2, "")];
    assert_eq!(
        add_chunk_metadata(&records, &vec![], &vec![]).err(),
        Some(FulgorError::MalformedQueryIdentifier { query: "nounderscore".to_string() })
    );
}

#[test]
fn end_to_end_positive_class() {
    let records = vec![rec("g1_c1", 5, 1, "geneA"), rec("g1_c1", 5, 2, "")];
    let chunks = vec![chunk_ann("g1", "c1", 5, Some("AMR"))];
    let matches = vec![match_ann("geneA", Some("resistance"))];
    let joined = add_chunk_metadata(&records, &chunks, &matches).unwrap();
    let pos = get_positive_set(&joined);
    assert_eq!(pos.len(), 2);
    assert_eq!(pos[0].match_annotation.as_deref(), Some("resistance"));
    let rows = get_stats(&records, &chunks, &matches, FoldMode::Counts).unwrap();
    let r = find(&rows, Some("resistance"));
    assert_eq!(r.pos_count, 1);
    assert_eq!(r.neg_count, 0);
    assert_eq!(r.fold_change, None);
}

fn sample_input() -> (Vec<MatchRecord>, Vec<ChunkAnnotation>, Vec<MatchAnnotation>) {
    let records = vec![
        rec("g1_c1", 1, 1, "m1"),
        rec("g1_c1", 1, 2, "m2"),
        rec("g1_c1", 2, 1, "m1"),
        rec("g1_c1", 2, 2, "m3"),
        rec("g1_c2", 7, 1, "m1"),
        rec("g2_c1", 1, 1, "m1"),
    ];
    let chunks = vec![chunk_ann("g1", "c1", 1, Some("AMR"))];
    let matches = vec![match_ann("m1", Some("X")), match_ann("m2", Some("Y")), match_ann("m3", Some("Y"))];
    (records, chunks, matches)
}

#[test]
fn fold_change_counts() {
    let (records, chunks, matches) = sample_input();
    let rows = process_genomes(&records, &chunks, &matches, 100, 12345, FoldMode::Counts).unwrap();
    assert_eq!(rows.len(), 2);
    let x = find(&rows, Some("X"));
    assert_eq!((x.pos_count, x.neg_count), (1, 2));
    assert_eq!(x.fold_change, Some(FoldRatio { num: 1, den: 2 }));
    let y = find(&rows, Some("Y"));
    assert_eq!((y.pos_count, y.neg_count), (1, 1));
    assert_eq!(y.fold_change, Some(FoldRatio { num: 1, den: 1 }));
    assert_eq!(rows[0].match_annotation.as_deref(), Some("Y"));
}

#[test]
fn fold_change_proportions() {
    let (records, chunks, matches) = sample_input();
    let rows = process_genomes(&records, &chunks, &matches, 100, 12345, FoldMode::Proportions).unwrap();
    let x = find(&rows, Some("X"));
    assert_eq!(x.fold_change, Some(FoldRatio { num: 3, den: 4 }));
    let y = find(&rows, Some("Y"));
    assert_eq!(y.fold_change, Some(FoldRatio { num: 3, den: 2 }));
}

#[test]
fn class_without_negatives_is_null() {
    let records = vec![rec("g1_c1", 1, 1, "m1"), rec("g1_c1", 2, 1, "m2")];
    let chunks = vec![chunk_ann("g1", "c1", 1, Some("AMR"))];
    let matches = vec![match_ann("m1", Some("X")), match_ann("m2", Some("Y"))];
    let rows = get_stats(&records, &chunks, &matches, FoldMode::Counts).unwrap();
    assert_eq!(rows.len(), 1);
    assert_eq!(rows[0].pos_count, 1);
    assert_eq!(rows[0].neg_count, 0);
    assert_eq!(rows[0].fold_change, None);
}

#[test]
fn absent_class_never_joins_negatives() {
    let records = vec![rec("g1_c1", 1, 1, ""), rec("g1_c1", 2, 1, "")];
    let chunks = vec![chunk_ann("g1", "c1", 1, Some("AMR"))];
    let rows = get_stats(&records, &chunks, &vec![], FoldMode::Counts).unwrap();
    assert_eq!(rows.len(), 1);
    assert_eq!(rows[0].match_annotation, None);
    assert_eq!((rows[0].pos_count, rows[0].neg_count), (1, 0));
    assert_eq!(rows[0].fold_change, None);
}

#[test]
fn rows_sorted_nulls_last() {
    let mut records = Vec::new();
    let matches = vec![match_ann("a", Some("A")), match_ann("b", Some("B")), match_ann("c", Some("C"))];
    // positives: A x1, B x3, C x1; negatives: A x2, B x1, none of C
    for (i, m) in ["a", "b", "b", "b", "c"].iter().enumerate() {
        records.push(rec("g1_c1", 1, i as u64 + 1, m));
    }
    for (i, m) in ["a", "a", "b"].iter().enumerate() {
        records.push(rec("g1_c1", 2, i as u64 + 1, m));
    }
    let chunks = vec![chunk_ann("g1", "c1", 1, Some("AMR"))];
    let rows = get_stats(&records, &chunks, &matches, FoldMode::Counts).unwrap();
    let order: Vec<Option<&str>> = rows.iter().map(|r| r.match_annotation.as_deref()).collect();
    assert_eq!(order, vec![Some("B"), Some("A"), Some("C")]);
    assert_eq!(rows[0].fold_change, Some(FoldRatio { num: 3, den: 1 }));
    assert_eq!(rows[1].fold_change, Some(FoldRatio { num: 1, den: 2 }));
    assert_eq!(rows[2].fold_change, None);
}

fn many_negatives(n: usize) -> Vec<JoinedRecord> {
    let mut records = vec![rec("g1_c1", 0, 1, "m")];
    for i in 0..n {
        records.push(rec("g1_c1", 1 + i as u64, 1, "m"));
    }
    records.push(rec("g2_c1", 0, 1, "m"));
    let chunks = vec![chunk_ann("g1", "c1", 0, Some("AMR"))];
    add_chunk_metadata(&records, &chunks, &vec![match_ann("m", Some("M"))]).unwrap()
}

#[test]
fn target_is_positives_times_multiplier() {
    let joined = many_negatives(3);
    let pos = get_positive_set(&joined);
    assert_eq!(sample_target_size(&pos, &"g1".to_string(), 100), 100);
    assert_eq!(sample_target_size(&pos, &"g2".to_string(), 100), 0);
    assert_eq!(sample_target_size(&pos, &"g1".to_string(), u64::MAX), u64::MAX as u128);
}

#[test]
fn ranks_are_a_shuffle_within_genome() {
    let joined = many_negatives(150);
    let negs = get_unannotated_set(&joined);
    assert_eq!(negs.len(), 151);
    let ranks = assign_ranks(&negs, 12345);
    assert_eq!(ranks.len(), 151);
    let mut g1: Vec<u64> = ranks[..150].to_vec();
    let unshuffled: Vec<u64> = (0..150).collect();
    assert_ne!(g1, unshuffled);
    g1.sort();
    assert_eq!(g1, unshuffled);
    assert_eq!(ranks[150], 0);
}

#[test]
fn negatives_capped_by_target() {
    let joined = many_negatives(150);
    let pos = get_positive_set(&joined);
    let negs = get_unannotated_set(&joined);
    let ranks = assign_ranks(&negs, 12345);
    let kept = get_negative_set(&negs, &ranks, &pos, 100);
    assert_eq!(kept.len(), 100);
    assert!(kept.iter().all(|j| j.query_genome_id == "g1"));
}

#[test]
fn sampling_is_reproducible() {
    let joined = many_negatives(150);
    let pos = get_positive_set(&joined);
    let negs = get_unannotated_set(&joined);
    let r1 = assign_ranks(&negs, 12345);
    let r2 = assign_ranks(&negs, 12345);
    assert_eq!(r1, r2);
    let k1: Vec<u64> = get_negative_set(&negs, &r1, &pos, 100).iter().map(|j| j.chunk).collect();
    let k2: Vec<u64> = get_negative_set(&negs, &r2, &pos, 100).iter().map(|j| j.chunk).collect();
    assert_eq!(k1, k2);
    let f1 = calc_fold_change(&pos, &get_negative_set(&negs, &r1, &pos, 100), FoldMode::Counts);
    let f2 = calc_fold_change(&pos, &get_negative_set(&negs, &r2, &pos, 100), FoldMode::Counts);
    assert_eq!(f1[0].fold_change, f2[0].fold_change);
    assert_eq!(f1[0].fold_change, Some(FoldRatio { num: 1, den: 100 }));
}

#[test]
fn tabular_rows_read() {
    let r = parse_tabular_row("g1_c1\t5\t2\tgeneA").unwrap();
    assert_eq!(r, rec("g1_c1", 5, 2, "geneA"));
    let r = parse_tabular_row("g1_c1\t5\t1\t").unwrap();
    assert_eq!(r, rec("g1_c1", 5, 1, ""));
    assert_eq!(parse_tabular_row("g1_c1\t5\t1").err(), Some(FulgorError::MalformedRow { line: "g1_c1\t5\t1".to_string() }));
    assert!(matches!(parse_tabular_row("g1_c1\tx\t1\tm"), Err(FulgorError::MalformedRow { .. })));
}

#[test]
fn annotation_rows_read() {
    let c = parse_chunk_row("g1\tc1\t5\tAMR").unwrap();
    assert_eq!((c.query_genome_id.as_str(), c.query_contig_id.as_str(), c.chunk), ("g1", "c1", 5));
    assert_eq!(c.chunk_annotation.as_deref(), Some("AMR"));
    let c = parse_chunk_row("g1\tc1\t6\t").unwrap();
    assert_eq!(c.chunk_annotation, None);
    assert!(matches!(parse_chunk_row("g1\tc1\t6"), Err(FulgorError::MalformedRow { .. })));
    let m = parse_match_row("geneA\tresistance").unwrap();
    assert_eq!(m.match_genome_id, "geneA");
    assert_eq!(m.match_annotation.as_deref(), Some("resistance"));
    assert_eq!(parse_match_row("geneB\t").unwrap().match_annotation, None);
    assert!(matches!(parse_match_row("geneB"), Err(FulgorError::MalformedRow { .. })));
}

#[test]
fn tables_skip_header() {
    let t = read_fulgor_table(&lines(&["query\tchunk\ttop\tmatch", "g1_c1\t5\t1\t", "g1_c1\t5\t2\tgeneA"])).unwrap();
    assert_eq!(t, vec![rec("g1_c1", 5, 1, ""), rec("g1_c1", 5, 2, "geneA")]);
    let c = read_chunk_annotation(&lines(&["h", "g1\tc1\t5\tAMR"])).unwrap();
    assert_eq!(c.len(), 1);
    let m = read_match_annotation(&lines(&["h", "geneA\tresistance", "bad"]));
    assert!(matches!(m, Err(FulgorError::MalformedRow { .. })));
    assert_eq!(read_match_annotation(&lines(&[])).unwrap().len(), 0);
}

#[test]
fn string_key_values() {
    assert_eq!(key_of(&String::new()), 0);
    assert_eq!(key_of(&"a".to_string()), 97);
    assert_eq!(key_of(&"ab".to_string()), 97 * 31 + 98);
    assert_ne!(key_of(&"ab".to_string()), key_of(&"ba".to_string()));
}

#[test]
fn join_takes_first_matching_row() {
    let records = vec![rec("g1_c1", 5, 1, "m7"), rec("g1_c1", 6, 1, "m3"), rec("g1_c2", 5, 1, "m0")];
    let chunks = vec![
        chunk_ann("g1", "c2", 5, Some("other")),
        chunk_ann("g1", "c1", 5, Some("first")),
        chunk_ann("g1", "c1", 5, Some("second")),
        chunk_ann("g1", "c1", 6, None),
    ];
    let mut matches = Vec::new();
    for i in 0..50 {
        matches.push(match_ann(&format!("m{}", i), Some(&format!("class{}", i))));
    }
    matches.push(match_ann("m7", Some("late")));
    matches.insert(0, match_ann("m3", None));
    let joined = add_chunk_metadata(&records, &chunks, &matches).unwrap();
    assert_eq!(joined[0].chunk_annotation.as_deref(), Some("first"));
    assert_eq!(joined[0].match_annotation.as_deref(), Some("class7"));
    assert_eq!(joined[1].chunk_annotation, None);
    assert_eq!(joined[1].match_annotation, None);
    assert_eq!(joined[2].chunk_annotation.as_deref(), Some("other"));
    assert_eq!(joined[2].query_contig_id, "c2");
    assert_eq!(joined[2].match_annotation.as_deref(), Some("class0"));
}

#[test]
fn tied_rows_keep_first_appearance_order() {
    let matches = vec![
        match_ann("a", Some("A")),
        match_ann("b", Some("B")),
        match_ann("c", Some("C")),
        match_ann("d", Some("D")),
    ];
    // positives in class order D, B, A, C; negatives give B and D ratio 1, A and C none
    let mut records = Vec::new();
    for (i, m) in ["d", "b", "a", "c"].iter().enumerate() {
        records.push(rec("g1_c1", 1, i as u64 + 1, m));
    }
    for (i, m) in ["b", "d"].iter().enumerate() {
        records.push(rec("g1_c1", 2, i as u64 + 1, m));
    }
    let chunks = vec![chunk_ann("g1", "c1", 1, Some("AMR"))];
    for _ in 0..2 {
        let rows = get_stats(&records, &chunks, &matches, FoldMode::Counts).unwrap();
        let order: Vec<Option<&str>> = rows.iter().map(|r| r.match_annotation.as_deref()).collect();
        assert_eq!(order, vec![Some("D"), Some("B"), Some("A"), Some("C")]);
    }
}
