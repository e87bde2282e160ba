use score_pipeline::aggregate::{aggregate, ScoreRow};
use score_pipeline::bytes::{escape, parse_u64, unescape};
use score_pipeline::decode::{parse_score_dump, parse_user_dump, PreScore};
use score_pipeline::filter::{filter_round, sort_by_pp, truncate_all, UserScores};
use score_pipeline::mods::Mod;
use score_pipeline::pipeline::process_scores;
use score_pipeline::split::{split_fields, split_rows};
use score_pipeline::PipelineError;

fn pp_key(x: f32) -> u64 {
    let b = x.to_bits() as i32;
    let u = if b < 0 { !(b as u32) } else { (b as u32) | 0x8000_0000 };
    u as u64
}

fn mk_mod(acr: &str) -> Mod {
    Mod { acronym: acr.as_bytes().to_vec(), settings: None }
}

fn mk_row(user_id: u64, beatmap_id: u64, total_score: u64, pp: f32, mods: Vec<Mod>) -> ScoreRow {
    ScoreRow { user_id, beatmap_id, total_score, pp: pp_key(pp), mods }
}

fn keyed_rows(pres: Vec<PreScore>) -> Vec<ScoreRow> {
    // the floating-point seam: read each pp column as a finite f32 and turn
    // it into an order-preserving integer key, dropping unparsable rows
    let mut out = Vec::new();
    for p in pres {
        let txt = String::from_utf8(p.pp_raw.clone()).unwrap_or_default();
        if let Ok(x) = txt.parse::<f32>() {
            if x.is_finite() {
                out.push(ScoreRow {
                    user_id: p.user_id,
                    beatmap_id: p.beatmap_id,
                    total_score: p.total_score,
                    pp: pp_key(x),
                    mods: p.mods,
                });
            }
        }
    }
    out
}

fn score_line(fields: &[&[u8]]) -> Vec<u8> {
    let mut line = b"INSERT INTO `scores` VALUES (".to_vec();
    for (i, f) in fields.iter().enumerate() {
        line.extend_from_slice(&escape(f));
        line.push(if i + 1 == fields.len() { b')' } else { b',' });
    }
    line.push(b';');
    line
}

fn score_fields<'a>(
    user: &'a [u8],
    beatmap: &'a [u8],
    ranked: &'a [u8],
    total: &'a [u8],
    data: &'a [u8],
    pp: &'a [u8],
) -> Vec<&'a [u8]> {
    vec![
        b"1", user, b"0", beatmap, b"0", b"1", ranked, b"'A'", b"1", b"0.9", b"100", total, data,
        pp, b"0", b"0", b"'t'", b"'t'", b"0", b"7",
    ]
}

#[test]
fn unescape_removes_one_backslash() {
    assert_eq!(unescape(b"a\\,b"), b"a,b".to_vec());
    assert_eq!(unescape(b"a\\\\b"), b"a\\b".to_vec());
    assert_eq!(unescape(b"plain"), b"plain".to_vec());
    assert_eq!(unescape(b""), Vec::<u8>::new());
}

#[test]
fn escape_then_unescape_is_identity() {
    let cases: Vec<&[u8]> = vec![b"a,b", b"{\"k\": [1,2]}", b"\\", b"(x)'\"", b""];
    for c in cases {
        assert_eq!(unescape(&escape(c)), c.to_vec());
    }
}

#[test]
fn parse_u64_reads_decimal() {
    assert_eq!(parse_u64(b"123"), Some(123));
    assert_eq!(parse_u64(b"0"), Some(0));
    assert_eq!(parse_u64(b""), None);
    assert_eq!(parse_u64(b"12a"), None);
    assert_eq!(parse_u64(b"18446744073709551615"), Some(u64::MAX));
    assert_eq!(parse_u64(b"18446744073709551616"), None);
}

#[test]
fn split_fields_honours_escapes() {
    let s: &[u8] = b"1,a\\,b,0,1);";
    let (fields, consumed) = split_fields(s, 0, 4, 4).unwrap();
    assert_eq!(fields[0], b"1".to_vec());
    assert_eq!(fields[1], b"a\\,b".to_vec());
    assert_eq!(fields[2], b"0".to_vec());
    assert_eq!(fields[3], b"1".to_vec());
    assert_eq!(consumed, s.len() - 1);
}

#[test]
fn split_rows_walks_multiple_tuples() {
    let s: &[u8] = b"1,alice,0,1),(2,bob,0,1);";
    let rows = split_rows(s, 0, 4, 4).unwrap();
    assert_eq!(rows.len(), 2);
    assert_eq!(rows[0][1], b"alice".to_vec());
    assert_eq!(rows[1][0], b"2".to_vec());
}

#[test]
fn split_rows_rejects_desync() {
    assert!(split_rows(b"1,alice,0,1)garbage;", 0, 4, 4).is_none());
    assert!(split_rows(b"1,alice", 0, 4, 4).is_none());
}

#[test]
fn blob_field_ends_at_depth_zero_comma() {
    let s: &[u8] = b"a,{\"x\": [1,2], \"y\": (3)},b);";
    let (fields, _) = split_fields(s, 0, 3, 1).unwrap();
    assert_eq!(fields[1], b"{\"x\": [1,2], \"y\": (3)}".to_vec());
    assert_eq!(fields[2], b"b".to_vec());
}

#[test]
fn user_dump_builds_table() {
    let dump = b"junk line\nINSERT INTO `sample_users` VALUES (1,alice,0,1),(2,bob,0,1);\n";
    let users = parse_user_dump(dump).unwrap();
    assert_eq!(users.len(), 2);
    assert_eq!(users[0].user_id, 1);
    assert_eq!(users[0].username, b"alice".to_vec());
    assert_eq!(users[1].user_id, 2);
    assert_eq!(users[1].username, b"bob".to_vec());
}

#[test]
fn user_dump_last_entry_wins() {
    let dump =
        b"INSERT INTO `sample_users` VALUES (7,first,0,1);\nINSERT INTO `sample_users` VALUES (7,second,0,1);\n";
    let users = parse_user_dump(dump).unwrap();
    assert_eq!(users.len(), 1);
    assert_eq!(users[0].username, b"second".to_vec());
}

#[test]
fn user_dump_bad_id_is_fatal() {
    let dump = b"INSERT INTO `sample_users` VALUES (x,alice,0,1);\n";
    assert_eq!(parse_user_dump(dump), Err(PipelineError::MalformedRecord));
}

#[test]
fn score_dump_decodes_ranked_row() {
    let data: &[u8] = b"'{\"mods\": [{\"acronym\": \"HD\"}]}'";
    let fields = score_fields(b"10", b"5", b"1", b"50000", data, b"250.0");
    let line = score_line(&fields);
    let pres = parse_score_dump(&line).unwrap();
    assert_eq!(pres.len(), 1);
    assert_eq!(pres[0].user_id, 10);
    assert_eq!(pres[0].beatmap_id, 5);
    assert_eq!(pres[0].total_score, 50000);
    assert_eq!(pres[0].pp_raw, b"250.0".to_vec());
    assert_eq!(pres[0].mods.len(), 1);
    assert_eq!(pres[0].mods[0].acronym, b"HD".to_vec());
    assert_eq!(pres[0].mods[0].settings, None);
}

#[test]
fn score_dump_round_trips_escaped_blob() {
    // a synthetic row whose mods blob embeds escaped commas and brackets
    let data: &[u8] = b"'{\"mods\": [{\"acronym\": \"A],\"}]}'";
    let fields = score_fields(b"3", b"9", b"1", b"777", data, b"99.5");
    let line = score_line(&fields);
    let pres = parse_score_dump(&line).unwrap();
    assert_eq!(pres.len(), 1);
    assert_eq!(pres[0].user_id, 3);
    assert_eq!(pres[0].beatmap_id, 9);
    assert_eq!(pres[0].total_score, 777);
    assert_eq!(pres[0].pp_raw, b"99.5".to_vec());
    assert_eq!(pres[0].mods[0].acronym, b"A],".to_vec());
}

#[test]
fn score_dump_sorts_mods_by_acronym() {
    let data: &[u8] = b"'{\"mods\": [{\"acronym\": \"EZ\"}, {\"acronym\": \"DT\"}]}'";
    let fields = score_fields(b"1", b"2", b"1", b"10", data, b"1.0");
    let line = score_line(&fields);
    let pres = parse_score_dump(&line).unwrap();
    assert_eq!(pres[0].mods.len(), 2);
    assert_eq!(pres[0].mods[0].acronym, b"DT".to_vec());
    assert_eq!(pres[0].mods[1].acronym, b"EZ".to_vec());
}

#[test]
fn score_dump_carries_settings_through() {
    let data: &[u8] = b"'{\"mods\": [{\"acronym\": \"DT\", \"settings\": {\"speed_change\": 1.5}}]}'";
    let fields = score_fields(b"1", b"2", b"1", b"10", data, b"1.0");
    let line = score_line(&fields);
    let pres = parse_score_dump(&line).unwrap();
    let settings = pres[0].mods[0].settings.clone().unwrap();
    let v: serde_json::Value = serde_json::from_slice(&settings).unwrap();
    assert_eq!(v["speed_change"], serde_json::Value::from(1.5));
}

#[test]
fn score_dump_skips_unranked_rows() {
    let data: &[u8] = b"'{\"mods\": []}'";
    let fields = score_fields(b"10", b"5", b"0", b"50000", data, b"250.0");
    let line = score_line(&fields);
    assert_eq!(parse_score_dump(&line).unwrap().len(), 0);
}

#[test]
fn score_dump_bad_blob_is_fatal() {
    let data: &[u8] = b"'{\"mods\": 5}'";
    let fields = score_fields(b"10", b"5", b"1", b"50000", data, b"250.0");
    let line = score_line(&fields);
    assert_eq!(parse_score_dump(&line), Err(PipelineError::BlobDecodeFailure));
}

#[test]
fn score_dump_wrong_field_count_is_fatal() {
    let line = b"INSERT INTO `scores` VALUES (1,2);";
    assert_eq!(parse_score_dump(line), Err(PipelineError::MalformedRecord));
}

#[test]
fn aggregate_keeps_best_pp_per_pair() {
    let rows = vec![
        mk_row(1, 5, 100, 100.0, vec![mk_mod("HD")]),
        mk_row(1, 5, 200, 250.0, vec![mk_mod("DT")]),
        mk_row(1, 5, 300, 150.0, vec![mk_mod("EZ")]),
        mk_row(2, 5, 400, 50.0, vec![]),
    ];
    let agg = aggregate(rows);
    assert_eq!(agg.len(), 2);
    assert_eq!(agg[0].total_score, 200);
    assert_eq!(agg[0].pp, pp_key(250.0));
    assert_eq!(agg[0].mods[0].acronym, b"DT".to_vec());
    assert_eq!(agg[1].user_id, 2);
}

#[test]
fn aggregate_tie_keeps_first_seen() {
    let rows = vec![
        mk_row(1, 5, 111, 90.0, vec![mk_mod("HD")]),
        mk_row(1, 5, 222, 90.0, vec![mk_mod("DT")]),
    ];
    let agg = aggregate(rows);
    assert_eq!(agg.len(), 1);
    assert_eq!(agg[0].total_score, 111);
    assert_eq!(agg[0].mods[0].acronym, b"HD".to_vec());
}

#[test]
fn sort_by_pp_ranks_descending() {
    let rows = vec![
        mk_row(1, 1, 0, 10.0, vec![]),
        mk_row(1, 2, 0, 30.0, vec![]),
        mk_row(1, 3, 0, 20.0, vec![]),
    ];
    let sorted = sort_by_pp(rows);
    let maps: Vec<u64> = sorted.iter().map(|r| r.beatmap_id).collect();
    assert_eq!(maps, vec![2, 3, 1]);
}

#[test]
fn filter_round_removes_nothing_when_converged() {
    // both entries share (beatmap 5, mods HD): already converged
    let lists = vec![
        UserScores { user_id: 1, entries: vec![mk_row(1, 5, 0, 10.0, vec![mk_mod("HD")])] },
        UserScores { user_id: 2, entries: vec![mk_row(2, 5, 0, 20.0, vec![mk_mod("HD")])] },
    ];
    let once = filter_round(&lists);
    assert_eq!(once.len(), 2);
    assert_eq!(once[0].entries.len(), 1);
    assert_eq!(once[1].entries.len(), 1);
    // idempotence: a second application changes nothing either
    let twice = filter_round(&once);
    assert_eq!(twice[0].entries.len(), 1);
    assert_eq!(twice[1].entries.len(), 1);
}

#[test]
fn filter_round_drops_unshared_pairs() {
    let lists = vec![
        UserScores { user_id: 1, entries: vec![mk_row(1, 5, 0, 10.0, vec![mk_mod("HD")])] },
        UserScores { user_id: 2, entries: vec![mk_row(2, 6, 0, 20.0, vec![mk_mod("HD")])] },
    ];
    let once = filter_round(&lists);
    assert_eq!(once[0].entries.len(), 0);
    assert_eq!(once[1].entries.len(), 0);
}

#[test]
fn truncate_keeps_first_hundred() {
    let mut entries = Vec::new();
    for i in 0..150u64 {
        entries.push(mk_row(1, i, 0, 1000.0 - i as f32, vec![]));
    }
    let lists = vec![UserScores { user_id: 1, entries }];
    let cut = truncate_all(lists);
    assert_eq!(cut[0].entries.len(), 100);
    assert_eq!(cut[0].entries[0].beatmap_id, 0);
    assert_eq!(cut[0].entries[99].beatmap_id, 99);
}

#[test]
fn engine_end_to_end_example() {
    // users A and B share beatmap 5 with HD; C's (6, EZ) pair is unique
    let rows = vec![
        mk_row(1, 5, 1000, 250.0, vec![mk_mod("HD")]),
        mk_row(2, 5, 900, 180.0, vec![mk_mod("HD")]),
        mk_row(3, 6, 800, 300.0, vec![mk_mod("EZ")]),
    ];
    let out = process_scores(rows);
    assert_eq!(out.len(), 2);
    let mut users: Vec<u64> = out.iter().map(|e| e.user_id).collect();
    users.sort();
    assert_eq!(users, vec![1, 2]);
    for e in &out {
        assert_eq!(e.beatmap_id, 5);
        assert_eq!(e.mods.len(), 1);
        assert_eq!(e.mods[0].acronym, b"HD".to_vec());
    }
}

#[test]
fn engine_output_pairs_always_shared() {
    // after truncation, pairs kept by only one survivor must vanish again
    let mut rows = Vec::new();
    for b in 0..150u64 {
        rows.push(mk_row(1, b, 10, 1000.0 - b as f32, vec![mk_mod("HD")]));
        rows.push(mk_row(2, b, 20, 1000.0 - b as f32, vec![mk_mod("HD")]));
    }
    // user 2 alone also holds beatmap 500; unshared, it must go
    rows.push(mk_row(2, 500, 30, 2000.0, vec![mk_mod("HD")]));
    let out = process_scores(rows);
    // each survivor's pair appears at least twice in the output
    for e in &out {
        let same = out
            .iter()
            .filter(|o| o.beatmap_id == e.beatmap_id && o.mods == e.mods)
            .count();
        assert!(same >= 2);
    }
    assert!(out.iter().all(|e| e.beatmap_id != 500));
}

#[test]
fn engine_truncates_per_user() {
    let mut rows = Vec::new();
    for b in 0..130u64 {
        rows.push(mk_row(1, b, 10, 1000.0 - b as f32, vec![]));
        rows.push(mk_row(2, b, 20, 1000.0 - b as f32, vec![]));
    }
    let out = process_scores(rows);
    assert_eq!(out.len(), 200);
    let per_user_1 = out.iter().filter(|e| e.user_id == 1).count();
    assert_eq!(per_user_1, 100);
    // only the 100 highest-pp beatmaps (lowest ids) survive
    assert!(out.iter().all(|e| e.beatmap_id < 100));
}

#[test]
fn full_pipeline_from_dump_bytes() {
    let data_hd: &[u8] = b"'{\"mods\": [{\"acronym\": \"HD\"}]}'";
    let data_ez: &[u8] = b"'{\"mods\": [{\"acronym\": \"EZ\"}]}'";
    let mut dump = Vec::new();
    dump.extend_from_slice(&score_line(&score_fields(b"1", b"5", b"1", b"1000", data_hd, b"250.0")));
    dump.push(b'\n');
    dump.extend_from_slice(&score_line(&score_fields(b"2", b"5", b"1", b"900", data_hd, b"180.0")));
    dump.push(b'\n');
    dump.extend_from_slice(&score_line(&score_fields(b"3", b"6", b"1", b"800", data_ez, b"300.0")));
    dump.push(b'\n');
    let pres = parse_score_dump(&dump).unwrap();
    assert_eq!(pres.len(), 3);
    let out = process_scores(keyed_rows(pres));
    assert_eq!(out.len(), 2);
    assert!(out.iter().all(|e| e.beatmap_id == 5));
}
