use collect_join::semi_join::{JoinError, JoinHashMap, JoinOutput, JoinerParams, ProbeSide, SemiJoiner, SemiMode};

fn key(v: Option<i64>) -> Option<Vec<u8>> {
    v.map(|x| x.to_le_bytes().to_vec())
}

fn map_of(rows: &[(i32, i64)]) -> JoinHashMap {
    JoinHashMap::new(rows.iter().map(|r| r.0).collect(), rows.iter().map(|r| key(Some(r.1))).collect())
}

fn run(params: JoinerParams, build: &[(i32, i64)], batches: &[Vec<(i32, Option<i64>)>]) -> (Vec<JoinOutput>, SemiJoiner) {
    let mut j = SemiJoiner::new(params, map_of(build));
    let mut outs = Vec::new();
    for b in batches {
        let hs: Vec<i32> = b.iter().map(|r| r.0).collect();
        let ks: Vec<Option<Vec<u8>>> = b.iter().map(|r| key(r.1)).collect();
        outs.push(j.join(&hs, &ks).unwrap());
    }
    outs.push(j.finish().unwrap());
    (outs, j)
}

fn rows(o: &JoinOutput) -> Vec<usize> {
    match o {
        JoinOutput::Select(v) => v.clone(),
        _ => panic!("expected a selection"),
    }
}

#[test]
fn semi_and_anti_split_the_probe_rows() {
    let build = [(1, 10), (2, 20), (2, 21)];
    let batch = vec![(1, Some(10)), (2, Some(21)), (2, Some(22)), (3, Some(30)), (1, None)];
    let (semi, _) = run(JoinerParams::new(ProbeSide::L, true, SemiMode::Semi), &build, &[batch.clone()]);
    let (anti, j) = run(JoinerParams::new(ProbeSide::L, true, SemiMode::Anti), &build, &[batch.clone()]);
    assert_eq!(rows(&semi[0]), vec![0, 1]);
    assert_eq!(rows(&anti[0]), vec![2, 3, 4]);
    assert_eq!(j.num_output_rows(), 3);
}

#[test]
fn semi_and_anti_split_the_build_rows() {
    let build = [(1, 10), (2, 20), (2, 21), (5, 50)];
    let batches = vec![vec![(2, Some(21)), (7, Some(70))], vec![(1, Some(10)), (7, Some(70)), (2, Some(21))]];
    let (semi, js) = run(JoinerParams::new(ProbeSide::R, false, SemiMode::Semi), &build, &batches);
    let (anti, ja) = run(JoinerParams::new(ProbeSide::L, false, SemiMode::Anti), &build, &batches);
    assert!(matches!(semi[0], JoinOutput::Empty));
    assert_eq!(rows(&semi[2]), vec![0, 2]);
    assert_eq!(rows(&anti[2]), vec![1, 3]);
    assert_eq!(js.num_output_rows(), 2);
    assert_eq!(ja.num_output_rows(), 2);
}

#[test]
fn existence_matches_semi() {
    let build = [(4, 4), (6, 6)];
    let batch = vec![(4, Some(4)), (6, Some(7)), (6, Some(6)), (0, None)];
    let (ex, j) = run(JoinerParams::new(ProbeSide::R, true, SemiMode::Existence), &build, &[batch.clone()]);
    let (semi, _) = run(JoinerParams::new(ProbeSide::R, true, SemiMode::Semi), &build, &[batch]);
    match &ex[0] {
        JoinOutput::Exists(flags) => {
            assert_eq!(flags.len(), 4);
            let sel = rows(&semi[0]);
            for (i, f) in flags.iter().enumerate() {
                assert_eq!(*f, sel.contains(&i));
            }
        }
        _ => panic!("expected flags"),
    }
    assert_eq!(j.num_output_rows(), 4);
}

#[test]
fn skipped_hashes_do_not_change_output() {
    // hash 9 has no build row: later rows with that hash are skipped
    let build = [(1, 10), (1, 11)];
    let batches = vec![vec![(9, Some(90)), (9, Some(91))], vec![(9, Some(90)), (1, Some(11))], vec![(1, Some(12))]];
    let (out, j) = run(JoinerParams::new(ProbeSide::L, false, SemiMode::Semi), &build, &batches);
    assert_eq!(rows(&out[3]), vec![1]);
    assert!(!j.can_early_stop());
}

#[test]
fn null_keys_never_join() {
    let build = [(0, 0)];
    let (out, _) = run(JoinerParams::new(ProbeSide::L, true, SemiMode::Semi), &build, &[vec![(0, None), (0, Some(0))]]);
    assert_eq!(rows(&out[0]), vec![1]);
}

#[test]
fn calls_after_finish_are_refused() {
    let mut j = SemiJoiner::new(JoinerParams::new(ProbeSide::L, false, SemiMode::Anti), map_of(&[(1, 1)]));
    assert!(matches!(j.finish(), Ok(JoinOutput::Select(_))));
    assert!(matches!(j.finish(), Err(JoinError::Finished)));
    assert!(matches!(j.join(&vec![1], &vec![key(Some(1))]), Err(JoinError::Finished)));
}

#[test]
fn early_stop_only_when_build_side_is_output() {
    let (_, j) = run(JoinerParams::new(ProbeSide::L, true, SemiMode::Semi), &[(1, 1)], &[vec![(1, Some(1))]]);
    assert!(!j.can_early_stop());
    let mut j = SemiJoiner::new(JoinerParams::new(ProbeSide::R, false, SemiMode::Semi), map_of(&[]));
    assert!(j.can_early_stop());
    assert!(matches!(j.finish(), Ok(JoinOutput::Select(v)) if v.is_empty()));
}

#[test]
fn entry_indices_lists_rows_with_the_hash() {
    let m = map_of(&[(5, 1), (6, 2), (5, 3)]);
    assert_eq!(m.entry_indices(5), vec![0, 2]);
    assert!(m.entry_indices(7).is_empty());
    assert_eq!(m.num_rows(), 3);
    let p = JoinerParams::new(ProbeSide::R, true, SemiMode::Anti);
    assert_eq!(p.probe_side, ProbeSide::R);
    assert!(p.probe_is_join_side);
    assert_eq!(p.mode, SemiMode::Anti);
}
