use collect_join::acc_set::AccSet;
use collect_join::column::{AccListColumn, AccSetColumn};
use collect_join::semi_join::{JoinHashMap, JoinOutput, JoinerParams, ProbeSide, SemiJoiner, SemiMode};

fn enc(v: i64) -> Vec<u8> {
    v.to_le_bytes().to_vec()
}

fn key(v: Option<i64>) -> Option<Vec<u8>> {
    v.map(enc)
}

fn hash(v: Option<i64>) -> i32 {
    v.map(|x| x as i32).unwrap_or(0)
}

fn build_map(rows: &[i64]) -> JoinHashMap {
    let hashes = rows.iter().map(|&r| hash(Some(r))).collect();
    let keys = rows.iter().map(|&r| key(Some(r))).collect();
    JoinHashMap::new(hashes, keys)
}

fn probe(joiner: &mut SemiJoiner, rows: &[Option<i64>]) -> JoinOutput {
    let hashes: Vec<i32> = rows.iter().map(|&r| hash(r)).collect();
    let keys: Vec<Option<Vec<u8>>> = rows.iter().map(|&r| key(r)).collect();
    joiner.join(&hashes, &keys).unwrap()
}

#[test]
fn collect_set_deduplicates() {
    let mut col = AccSetColumn::empty();
    col.resize(1);
    for v in [Some(1), Some(2), Some(1), Some(3), Some(2), None, Some(3)] {
        if let Some(v) = v {
            col.append_item(0, &enc(v)).unwrap();
        }
    }
    let mut got = col.take_values(0);
    got.sort();
    let mut want = vec![enc(1), enc(2), enc(3)];
    want.sort();
    assert_eq!(got, want);
}

#[test]
fn collect_list_keeps_order() {
    let mut col = AccListColumn::empty();
    col.resize(1);
    for v in [Some("a"), Some("b"), Some("a"), None, Some("c")] {
        if let Some(v) = v {
            col.append_item(0, &v.as_bytes().to_vec());
        }
    }
    let got = col.take_values(0);
    let want: Vec<Vec<u8>> = ["a", "b", "a", "c"].iter().map(|s| s.as_bytes().to_vec()).collect();
    assert_eq!(got, want);
}

#[test]
fn set_switches_to_table_after_four() {
    let mut set = AccSet::new();
    for v in 1..=4 {
        set.append(&enc(v)).unwrap();
        assert!(!set.is_huge());
    }
    set.append(&enc(5)).unwrap();
    assert!(set.is_huge());
    assert_eq!(set.len(), 5);
    set.append(&enc(1)).unwrap();
    assert_eq!(set.len(), 5);
    assert!(set.contains(&enc(3)));
    assert!(!set.contains(&enc(6)));
    assert_eq!(set.into_values(), (1..=5).map(enc).collect::<Vec<_>>());
}

#[test]
fn left_probed_left_semi() {
    let mut joiner = SemiJoiner::new(JoinerParams::new(ProbeSide::L, true, SemiMode::Semi), build_map(&[1, 2, 3]));
    match probe(&mut joiner, &[Some(1), Some(2), Some(2), Some(4), None]) {
        JoinOutput::Select(rows) => assert_eq!(rows, vec![0, 1, 2]),
        _ => panic!("expected a selection"),
    }
    assert_eq!(joiner.num_output_rows(), 3);
    assert!(matches!(joiner.finish(), Ok(JoinOutput::Empty)));
}

#[test]
fn right_probed_left_semi_stops_early() {
    let mut joiner = SemiJoiner::new(JoinerParams::new(ProbeSide::R, false, SemiMode::Semi), build_map(&[1, 2, 3]));
    assert!(matches!(probe(&mut joiner, &[Some(1), Some(2)]), JoinOutput::Empty));
    assert!(!joiner.can_early_stop());
    assert!(matches!(probe(&mut joiner, &[Some(3), Some(4)]), JoinOutput::Empty));
    assert!(joiner.can_early_stop());
    match joiner.finish() {
        Ok(JoinOutput::Select(rows)) => assert_eq!(rows, vec![0, 1, 2]),
        _ => panic!("expected a selection"),
    }
    assert_eq!(joiner.num_output_rows(), 3);
}

#[test]
fn existence_flags_every_probe_row() {
    let mut joiner = SemiJoiner::new(JoinerParams::new(ProbeSide::L, true, SemiMode::Existence), build_map(&[1, 2]));
    match probe(&mut joiner, &[Some(0), Some(1), Some(2), Some(3)]) {
        JoinOutput::Exists(flags) => assert_eq!(flags, vec![false, true, true, false]),
        _ => panic!("expected flags"),
    }
    assert_eq!(joiner.num_output_rows(), 4);
}
