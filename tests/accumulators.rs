use collect_join::acc_list::AccList;
use collect_join::acc_set::{AccError, AccSet};
use collect_join::column::{AccListColumn, AccSetColumn};

fn enc(v: i64) -> Vec<u8> {
    v.to_le_bytes().to_vec()
}

fn sorted(mut v: Vec<Vec<u8>>) -> Vec<Vec<u8>> {
    v.sort();
    v
}

struct Lcg(u64);

impl Lcg {
    fn next(&mut self) -> i64 {
        self.0 = self.0.wrapping_mul(6364136223846793005).wrapping_add(1442695040888963407);
        (self.0 >> 33) as i64 % 20
    }
}

#[test]
fn spill_round_trip_thousand_groups() {
    let mut rng = Lcg(7);
    let mut sets = AccSetColumn::empty();
    let mut lists = AccListColumn::empty();
    sets.resize(1000);
    lists.resize(1000);
    for g in 0..1000 {
        for _ in 0..10 {
            let v = enc(rng.next());
            sets.append_item(g, &v).unwrap();
            lists.append_item(g, &v);
        }
    }
    let idx: Vec<usize> = (0..1000).collect();
    let mut set_bytes = Vec::new();
    sets.spill(&idx, &mut set_bytes);
    let mut list_bytes = Vec::new();
    lists.spill(&idx, &mut list_bytes).unwrap();

    let mut sets2 = AccSetColumn::empty();
    let mut lists2 = AccListColumn::empty();
    assert_eq!(sets2.unspill(1000, &set_bytes, 0), Ok(set_bytes.len()));
    assert_eq!(lists2.unspill(1000, &list_bytes, 0), Ok(list_bytes.len()));
    assert_eq!(sets2.num_records(), 1000);
    for g in 0..1000 {
        assert_eq!(sorted(sets.take_values(g)), sorted(sets2.take_values(g)));
        assert_eq!(lists.take_values(g), lists2.take_values(g));
    }
}

#[test]
fn save_and_load_one_slot() {
    let mut lists = AccListColumn::empty();
    lists.resize(2);
    for v in [3, 1, 3] {
        lists.append_item(0, &enc(v));
    }
    let mut w = vec![9u8, 9];
    lists.save_raw(0, &mut w).unwrap();
    let mut other = AccListColumn::empty();
    other.resize(1);
    assert_eq!(other.load_raw(0, &w, 2), Ok(w.len()));
    assert_eq!(other.take_values(0), vec![enc(3), enc(1), enc(3)]);

    let mut sets = AccSetColumn::empty();
    sets.resize(1);
    for v in [3, 1, 3] {
        sets.append_item(0, &enc(v)).unwrap();
    }
    let mut w = Vec::new();
    sets.save_raw(0, &mut w);
    let mut other = AccSetColumn::empty();
    other.resize(3);
    assert_eq!(other.load_raw(2, &w, 0), Ok(w.len()));
    assert_eq!(other.take_values(2), vec![enc(3), enc(1)]);
}

#[test]
fn load_rejects_malformed_bytes() {
    let mut lists = AccListColumn::empty();
    lists.resize(1);
    lists.append_item(0, &enc(5));
    assert_eq!(lists.load_raw(0, &vec![1, 2], 0), Err(AccError::Malformed));
    assert_eq!(lists.load_raw(0, &vec![10, 0, 0, 0, 1, 2], 0), Err(AccError::Malformed));
    // a frame whose payload is not itself a sequence of frames
    assert_eq!(lists.load_raw(0, &vec![2, 0, 0, 0, 7, 7], 0), Err(AccError::Malformed));
    assert_eq!(lists.take_values(0), vec![enc(5)]);

    let mut sets = AccSetColumn::empty();
    sets.resize(1);
    assert_eq!(sets.load_raw(0, &vec![0, 0, 0], 0), Err(AccError::Malformed));
    assert_eq!(sets.unspill(2, &vec![0, 0, 0, 0], 0), Err(AccError::Malformed));
}

#[test]
fn empty_slot_round_trips() {
    let mut sets = AccSetColumn::empty();
    sets.resize(1);
    let mut w = Vec::new();
    sets.save_raw(0, &mut w);
    assert_eq!(w, vec![0, 0, 0, 0]);
    assert_eq!(sets.load_raw(0, &w, 0), Ok(4));
    assert!(sets.take_values(0).is_empty());
}

#[test]
fn frame_layout_is_length_then_bytes() {
    let mut list = AccList::new();
    list.append(&vec![0xAB, 0xCD]);
    assert_eq!(list.raw(), &vec![2, 0, 0, 0, 0xAB, 0xCD]);
    let mut lists = AccListColumn::empty();
    lists.resize(1);
    lists.append_item(0, &vec![0xAB, 0xCD]);
    let mut w = Vec::new();
    lists.save_raw(0, &mut w).unwrap();
    assert_eq!(w, vec![6, 0, 0, 0, 2, 0, 0, 0, 0xAB, 0xCD]);
}

#[test]
fn freeze_and_unfreeze_rows() {
    let mut lists = AccListColumn::empty();
    lists.resize(3);
    lists.append_item(0, &enc(1));
    lists.append_item(2, &enc(2));
    lists.append_item(2, &enc(2));
    let mut rows = vec![vec![7u8], vec![], vec![]];
    lists.freeze_to_rows(&vec![2, 0], &mut rows).unwrap();
    assert!(rows[2].is_empty());
    let arr = vec![rows[0].clone(), rows[1].clone()];
    let mut offsets = vec![1usize, 0];
    let mut other = AccListColumn::empty();
    other.resize(1);
    other.unfreeze_from_rows(&arr, &mut offsets).unwrap();
    assert_eq!(offsets, vec![arr[0].len(), arr[1].len()]);
    assert_eq!(other.num_records(), 3);
    assert!(other.take_values(0).is_empty());
    assert_eq!(other.take_values(1), vec![enc(2), enc(2)]);
    assert_eq!(other.take_values(2), vec![enc(1)]);

    let mut sets = AccSetColumn::empty();
    sets.resize(1);
    sets.append_item(0, &enc(4)).unwrap();
    let mut rows = vec![vec![]];
    sets.freeze_to_rows(&vec![0], &mut rows);
    let mut offsets = vec![0usize];
    let mut other = AccSetColumn::empty();
    other.unfreeze_from_rows(&rows, &mut offsets).unwrap();
    assert_eq!(offsets, vec![rows[0].len()]);
    assert_eq!(other.take_values(0), vec![enc(4)]);
    let mut bad = vec![0usize];
    assert_eq!(other.unfreeze_from_rows(&vec![vec![1u8]], &mut bad), Err(AccError::Malformed));
}

#[test]
fn set_merge_is_union_and_empties_other() {
    let mut a = AccSetColumn::empty();
    let mut b = AccSetColumn::empty();
    a.resize(1);
    b.resize(2);
    for v in [1, 2] {
        a.append_item(0, &enc(v)).unwrap();
    }
    for v in [2, 3, 4, 5, 6, 7] {
        b.append_item(1, &enc(v)).unwrap();
    }
    a.merge_items(0, &mut b, 1).unwrap();
    assert_eq!(sorted(a.take_values(0)), (1..=7).map(enc).collect::<Vec<_>>());
    assert!(b.take_values(1).is_empty());
}

#[test]
fn set_merge_is_commutative_and_associative() {
    let parts: [&[i64]; 3] = [&[1, 2, 3], &[3, 4], &[5, 1, 6, 7, 8]];
    let mut results = Vec::new();
    for order in [[0, 1, 2], [2, 1, 0], [1, 0, 2]] {
        let mut cols: Vec<AccSet> = Vec::new();
        for &p in &order {
            let mut s = AccSet::new();
            for &v in parts[p] {
                s.append(&enc(v)).unwrap();
            }
            cols.push(s);
        }
        let mut c = cols.pop().unwrap();
        let mut b = cols.pop().unwrap();
        let mut a = cols.pop().unwrap();
        b.merge(&mut c).unwrap();
        a.merge(&mut b).unwrap();
        assert_eq!(b.len(), 0);
        results.push(sorted(a.into_values()));
    }
    assert_eq!(results[0], results[1]);
    assert_eq!(results[0], results[2]);
    assert_eq!(results[0].len(), 8);
}

#[test]
fn list_merge_appends_in_order() {
    let mut a = AccList::new();
    let mut b = AccList::new();
    let mut c = AccList::new();
    a.append(&enc(1));
    b.append(&enc(2));
    b.append(&enc(1));
    c.append(&enc(3));
    b.merge(&mut c);
    a.merge(&mut b);
    assert_eq!(a.into_values(), vec![enc(1), enc(2), enc(1), enc(3)]);
    assert!(b.into_values().is_empty());
}

#[test]
fn partial_update_merge_and_final_merge() {
    let values = vec![Some(enc(1)), None, Some(enc(2)), Some(enc(1))];
    let mut lists = AccListColumn::empty();
    lists.resize(2);
    lists.partial_update(&vec![0, 1, 0, 0, 1], &values, &vec![0, 1, 2, 3, 3]);
    let mut sets = AccSetColumn::empty();
    sets.resize(2);
    sets.partial_update(&vec![0, 1, 0, 0, 1], &values, &vec![0, 1, 2, 3, 3]).unwrap();

    let mut other_lists = AccListColumn::empty();
    other_lists.resize(1);
    other_lists.append_item(0, &enc(9));
    lists.partial_merge(&vec![1], &mut other_lists, &vec![0]);
    let mut other_sets = AccSetColumn::empty();
    other_sets.resize(1);
    other_sets.append_item(0, &enc(1)).unwrap();
    sets.partial_merge(&vec![1], &mut other_sets, &vec![0]).unwrap();

    let out = lists.final_merge(&vec![0, 1, 0]);
    assert_eq!(out, vec![vec![enc(1), enc(2), enc(1)], vec![enc(1), enc(9)], vec![]]);
    let out = sets.final_merge(&vec![1, 0]);
    assert_eq!(out, vec![vec![enc(1)], vec![enc(1), enc(2)]]);
}

#[test]
fn mem_used_tracks_slot_sizes() {
    let mut sets = AccSetColumn::empty();
    sets.resize(3);
    let total = |c: &AccSetColumn| (0..c.num_records()).map(|i| c.slot_mem_size(i) as u128).sum::<u128>();
    let overhead = sets.mem_used() - total(&sets);
    for v in 0..40 {
        sets.append_item((v % 3) as usize, &enc(v)).unwrap();
        assert_eq!(sets.mem_used(), total(&sets) + overhead);
    }
    assert!(sets.slot_mem_size(0) >= 8 * 14);
    sets.take_values(1);
    assert_eq!(sets.mem_used(), total(&sets) + overhead);

    let mut lists = AccListColumn::empty();
    lists.resize(2);
    let ltotal = |c: &AccListColumn| (0..c.num_records()).map(|i| c.slot_mem_size(i) as u128).sum::<u128>();
    let loverhead = lists.mem_used() - ltotal(&lists);
    for v in 0..10 {
        lists.append_item(1, &enc(v));
    }
    assert!(lists.slot_mem_size(1) >= 120);
    assert_eq!(lists.mem_used(), ltotal(&lists) + loverhead);
}

#[test]
fn resize_truncates_and_extends_with_empty_slots() {
    let mut lists = AccListColumn::empty();
    lists.resize(3);
    lists.append_item(0, &enc(1));
    lists.append_item(2, &enc(2));
    lists.resize(1);
    assert_eq!(lists.num_records(), 1);
    lists.resize(3);
    assert_eq!(lists.take_values(0), vec![enc(1)]);
    assert!(lists.take_values(2).is_empty());
}

#[test]
fn set_mem_size_counts_entries() {
    let mut s = AccSet::new();
    let base = s.mem_size();
    s.append(&enc(1)).unwrap();
    s.append(&enc(1)).unwrap();
    assert_eq!(s.len(), 1);
    assert!(s.mem_size() >= base + 8);
    assert!(s.mem_size() >= 12 + 8);
}

#[test]
fn empty_value_is_a_member_like_any_other() {
    let mut s = AccSet::new();
    s.append(&vec![]).unwrap();
    s.append(&vec![]).unwrap();
    for v in 0..6 {
        s.append(&enc(v)).unwrap();
    }
    s.append(&vec![]).unwrap();
    assert_eq!(s.len(), 7);
    assert!(s.contains(&vec![]));
}

#[test]
fn set_merge_keeps_the_larger_sets_order() {
    let mut a = AccSet::new();
    let mut b = AccSet::new();
    for v in [1, 2] {
        a.append(&enc(v)).unwrap();
    }
    for v in [3, 4, 5, 1] {
        b.append(&enc(v)).unwrap();
    }
    a.merge(&mut b).unwrap();
    assert_eq!(a.into_values(), [3, 4, 5, 1, 2].iter().map(|&v| enc(v)).collect::<Vec<_>>());
    assert_eq!(b.len(), 0);
}

#[test]
fn set_partial_merge_merges_each_pair() {
    let mut a = AccSetColumn::empty();
    let mut b = AccSetColumn::empty();
    a.resize(2);
    b.resize(2);
    a.append_item(0, &enc(1)).unwrap();
    b.append_item(0, &enc(2)).unwrap();
    b.append_item(1, &enc(1)).unwrap();
    assert_eq!(a.partial_merge(&vec![], &mut b, &vec![]), Ok(()));
    assert_eq!(a.partial_merge(&vec![0, 0], &mut b, &vec![0, 1]), Ok(()));
    assert_eq!(a.take_values(0), vec![enc(1), enc(2)]);
    assert!(b.take_values(0).is_empty());
    assert!(b.take_values(1).is_empty());
    assert_eq!(a.slot_mem_size(0), 0);
}
