use bigsi_rs::bits::Row;
use bigsi_rs::index::{Bigsi, DecodeError, MergeError};
use bv::BitVec;

fn row_bits(row: &Row) -> Vec<bool> {
    let mut out = Vec::new();
    for i in 0..row.len() {
        out.push(row.get(i));
    }
    out
}

fn three_accessions(m: usize) -> Bigsi {
    let mut filter = Bigsi::new(m, 10, 3);
    filter.insert(0, "ATGT");
    filter.insert(3, "ATGT");
    filter.insert(7, "ATGT");
    filter
}

#[test]
fn set_filter() {
    let new_bigsi = Bigsi::new(250000, 3, 10);
    println!("{}", new_bigsi.bigsi.len());
    assert_eq!(new_bigsi.bigsi.len(), 250000);
    assert_eq!(new_bigsi.accessions, 3);
    assert_eq!(new_bigsi.num_hashes, 10);
}

#[test]
fn add_filter() {
    let mut new_filter = Bigsi::new(250000, 3, 10);
    new_filter.insert(0, "ATGC");
    assert_eq!(new_filter.get("ATGC"), vec![0]);
}

#[test]
fn use_filter() {
    let mut new_filter = Bigsi::new(250000, 10, 3);
    new_filter.insert(0, "ATGT");
    new_filter.insert(3, "ATGT");
    new_filter.insert(7, "ATGT");
    new_filter.slim();
    assert_eq!(new_filter.get("ATGT").len(), 3 as usize);
    assert_eq!(new_filter.get("ATGC").len(), 0 as usize);
}

#[test]
fn merge_filters() {
    let mut new_filter = Bigsi::new(2500, 10, 3);
    new_filter.insert(0, "ATGT");
    new_filter.insert(3, "ATGT");
    new_filter.insert(7, "ATGT");
    let mut second_filter = Bigsi::new(2500, 10, 3);
    second_filter.insert(0, "ATGT");
    second_filter.insert(3, "ATGT");
    second_filter.insert(7, "ATGT");
    assert_eq!(new_filter.merge(&second_filter), Ok(()));
    println!("{} {}", new_filter.bigsi.len(), new_filter.bigsi[0].len());
    assert_eq!(new_filter.bigsi[0].len(), 20);
}

#[test]
fn scenario_query_after_slim() {
    let mut filter = three_accessions(250000);
    filter.slim();
    assert_eq!(filter.get("ATGT"), vec![0, 3, 7]);
    assert_eq!(filter.get("ATGC"), Vec::<usize>::new());
}

#[test]
fn fresh_index_reports_nothing() {
    let filter = Bigsi::new(1000, 10, 3);
    assert_eq!(filter.get("ATGC"), Vec::<usize>::new());
    assert_eq!(filter.get(""), Vec::<usize>::new());
}

#[test]
fn inserted_accession_is_reported() {
    let mut filter = Bigsi::new(50, 4, 2);
    for (a, v) in [(0u64, "AAAA"), (1, "CCCC"), (2, "GGGG"), (3, "TTTT"), (1, "AAAA")] {
        filter.insert(a, v);
        assert!(filter.get(v).contains(&(a as usize)));
    }
    assert!(filter.get("AAAA").contains(&0));
    assert!(filter.get("AAAA").contains(&1));
}

#[test]
fn insert_into_slimmed_row_widens_it() {
    let mut filter = Bigsi::new(20, 6, 2);
    filter.slim();
    assert_eq!(filter.bigsi[0].len(), 0);
    filter.insert(5, "ACGT");
    assert_eq!(filter.get("ACGT"), vec![5]);
    for b in filter.buckets("ACGT") {
        assert_eq!(filter.bigsi[b].len(), 6);
    }
}

#[test]
fn slim_keeps_query_results() {
    let mut filter = Bigsi::new(40, 8, 3);
    let values = ["A", "AC", "ACG", "ACGT", "TTT", "GATTACA"];
    for (i, v) in values.iter().enumerate() {
        filter.insert((i % 8) as u64, v);
    }
    let before: Vec<Vec<usize>> = values.iter().map(|v| filter.get(v)).collect();
    let unseen_before = filter.get("CCCCCC");
    filter.slim();
    let after: Vec<Vec<usize>> = values.iter().map(|v| filter.get(v)).collect();
    assert_eq!(before, after);
    assert_eq!(unseen_before, filter.get("CCCCCC"));
}

#[test]
fn slim_empties_only_all_false_rows() {
    let mut filter = Bigsi::new(10, 4, 1);
    filter.insert_buckets(2, &vec![3]);
    filter.slim();
    for j in 0..10 {
        let expected = if j == 3 { 4 } else { 0 };
        assert_eq!(filter.bigsi[j].len(), expected);
    }
    assert_eq!(row_bits(&filter.bigsi[3]), vec![false, false, true, false]);
}

#[test]
fn merge_shifts_second_accessions() {
    let mut first = three_accessions(2500);
    let second = three_accessions(2500);
    first.merge(&second).unwrap();
    assert_eq!(first.accessions, 20);
    assert_eq!(first.get("ATGT"), vec![0, 3, 7, 10, 13, 17]);
    assert_eq!(second.get("ATGT"), vec![0, 3, 7]);
}

#[test]
fn merge_with_slimmed_rows_widens_them() {
    let mut first = three_accessions(2500);
    first.slim();
    let second = Bigsi::new(2500, 4, 3);
    first.merge(&second).unwrap();
    for row in first.bigsi.iter() {
        assert_eq!(row.len(), 14);
    }
    assert_eq!(first.get("ATGT"), vec![0, 3, 7]);

    let mut left = Bigsi::new(30, 2, 2);
    let mut right = Bigsi::new(30, 3, 2);
    left.slim();
    right.insert_buckets(1, &vec![4]);
    right.slim();
    left.merge(&right).unwrap();
    for j in 0..30 {
        let expected = if j == 4 { 5 } else { 0 };
        assert_eq!(left.bigsi[j].len(), expected);
    }
    assert_eq!(row_bits(&left.bigsi[4]), vec![false, false, false, true, false]);
}

#[test]
fn merge_rejects_other_parameters() {
    let mut first = three_accessions(2500);
    let other_size = Bigsi::new(2400, 10, 3);
    let other_hashes = Bigsi::new(2500, 10, 2);
    assert_eq!(first.merge(&other_size), Err(MergeError::ParameterMismatch));
    assert_eq!(first.merge(&other_hashes), Err(MergeError::ParameterMismatch));
    assert_eq!(first.accessions, 10);
    assert_eq!(first.bigsi[0].len(), 10);
    assert_eq!(first.get("ATGT"), vec![0, 3, 7]);
}

#[test]
fn raw_query_bits() {
    let mut filter = three_accessions(250000);
    let raw = filter.get_bv("ATGT");
    let expected: Vec<bool> = (0..10).map(|a| a == 0 || a == 3 || a == 7).collect();
    assert_eq!(row_bits(&raw), expected);
    filter.slim();
    assert_eq!(filter.get_bv("ATGC").len(), 0);
    assert_eq!(row_bits(&filter.get_bv("ATGT")), expected);
}

#[test]
fn raw_query_without_slim_is_full_width() {
    let filter = Bigsi::new(100, 5, 2);
    assert_eq!(row_bits(&filter.get_bv("ATGC")), vec![false; 5]);
}

#[test]
fn queries_over_given_buckets() {
    let mut filter = Bigsi::new(5, 4, 2);
    filter.insert_buckets(1, &vec![0, 2]);
    filter.insert_buckets(3, &vec![2, 4]);
    assert_eq!(filter.get_buckets(&vec![0, 2]), vec![1]);
    assert_eq!(filter.get_buckets(&vec![2]), vec![1, 3]);
    assert_eq!(filter.get_buckets(&vec![2, 4]), vec![3]);
    assert_eq!(filter.get_buckets(&vec![0, 4]), Vec::<usize>::new());
    assert_eq!(filter.get_buckets(&vec![]), vec![0, 1, 2, 3]);
    assert_eq!(row_bits(&filter.get_bv_buckets(&vec![2])), vec![false, true, false, true]);
    filter.slim();
    assert_eq!(filter.get_bv_buckets(&vec![2, 1]).len(), 0);
    assert_eq!(filter.get_buckets(&vec![2, 1]), Vec::<usize>::new());
}

#[test]
fn buckets_follow_the_hash() {
    let filter = Bigsi::new(1000, 10, 3);
    let b = filter.buckets("");
    assert_eq!(b.len(), 3);
    assert_eq!(b[0], 921);
    assert!(b.iter().all(|x| *x < 1000));
    let c = filter.buckets("ATGT");
    assert_eq!(c.len(), 3);
    assert_ne!(b, c);
}

#[test]
fn default_parameters() {
    let filter = Bigsi::default();
    assert_eq!(filter.bigsi.len(), 1000);
    assert_eq!(filter.num_hashes, 2);
    assert_eq!(filter.accessions, 10);
    assert_eq!(filter.bigsi[999].len(), 10);
}

#[test]
fn parts_are_validated() {
    let good = vec![Row { bits: BitVec::new_fill(false, 10) }, Row { bits: BitVec::new() }];
    let index = Bigsi::from_parts(good, 3, 10).unwrap();
    assert_eq!(index.bigsi.len(), 2);
    assert_eq!(index.num_hashes, 3);
    assert!(matches!(Bigsi::from_parts(vec![], 3, 10), Err(DecodeError::Malformed)));
    let one = vec![Row { bits: BitVec::new_fill(false, 10) }];
    assert!(matches!(Bigsi::from_parts(one, 0, 10), Err(DecodeError::Malformed)));
    let wrong = vec![Row { bits: BitVec::new_fill(true, 9) }];
    assert!(matches!(Bigsi::from_parts(wrong, 3, 10), Err(DecodeError::Malformed)));
}

#[test]
fn serialization_round_trip() {
    let mut filter = three_accessions(3000);
    filter.insert(9, "GATTACA");
    filter.slim();
    let parts: (Vec<BitVec>, u64, u64) = (
        filter.bigsi.iter().map(|row| row.bits.clone()).collect(),
        filter.num_hashes,
        filter.accessions,
    );
    let bytes = bincode::serialize(&parts).unwrap();
    let back: (Vec<BitVec>, u64, u64) = bincode::deserialize(&bytes).unwrap();
    assert_eq!(back, parts);
    let rows: Vec<Row> = back.0.into_iter().map(|bits| Row { bits }).collect();
    let restored = Bigsi::from_parts(rows, back.1, back.2).unwrap();
    assert_eq!(restored.num_hashes, filter.num_hashes);
    assert_eq!(restored.accessions, filter.accessions);
    assert_eq!(restored.bigsi.len(), filter.bigsi.len());
    for (x, y) in restored.bigsi.iter().zip(filter.bigsi.iter()) {
        assert_eq!(row_bits(x), row_bits(y));
    }
    assert_eq!(restored.get("ATGT"), vec![0, 3, 7]);
    assert_eq!(restored.get("GATTACA"), vec![9]);
    assert!(bincode::deserialize::<(Vec<BitVec>, u64, u64)>(&bytes[..bytes.len() - 3]).is_err());
}
