use mapreduce::record_types::Record;
use mapreduce::shard_merge::ShardMergeIterator;
use mapreduce::sort::DictComparableString;

fn get_collection_1() -> Vec<i64> {
    vec![1, 4, 5, 5, 6, 9, 11, 15, 15, 17, 18, 20]
}
fn get_collection_2() -> Vec<i64> {
    vec![2, 2, 2, 3, 4, 5, 7, 8, 9, 10, 45, 46, 47]
}
fn get_collection_3() -> Vec<i64> {
    vec![5, 8, 9, 10, 22, 25, 30, 37, 41, 46, 71]
}
fn get_collection_4() -> Vec<i64> {
    vec![111, 112, 113, 155]
}
fn get_collection_5() -> Vec<i64> {
    vec![13, 45, 98, 105, 145]
}
fn get_collection_6() -> Vec<i64> {
    vec![14, 67, 99, 111, 222, 566, 643]
}

#[test]
fn test_merge_iterator() {
    let total = get_collection_1().len() + get_collection_2().len() + get_collection_3().len()
        + get_collection_4().len() + get_collection_5().len() + get_collection_6().len();
    let mut it = ShardMergeIterator::build(vec![
        get_collection_1(),
        get_collection_2(),
        get_collection_3(),
        get_collection_4(),
        get_collection_5(),
        get_collection_6(),
    ]);
    let mut cmp = 0;
    let mut cnt = 0;

    while let Some(i) = it.next() {
        assert!(i >= cmp);
        cmp = i;
        cnt += 1;
    }

    assert_eq!(cnt, total);
}

#[test]
fn test_merge_into_sorted_vec() {
    let it = ShardMergeIterator::build(vec![vec![3i64, 9, 12], vec![], vec![1, 9, 40], vec![2]]);
    let out = it.into_sorted_vec();
    assert_eq!(out, vec![1i64, 2, 3, 9, 9, 12, 40]);
}

#[test]
fn test_merge_single_source() {
    let it = ShardMergeIterator::build(vec![vec![7i64, 8]]);
    assert_eq!(it.into_sorted_vec(), vec![7i64, 8]);
}

#[test]
fn test_merge_no_sources() {
    let mut it = ShardMergeIterator::<i64>::build(vec![]);
    assert!(it.next().is_none());
}

#[test]
fn test_merge_ties_favor_earlier_source() {
    fn rec(k: &str, v: &str) -> Record {
        Record { key: k.as_bytes().to_vec(), value: v.as_bytes().to_vec() }
    }
    // The two keys fold alike, so they tie under the dictionary order;
    // the earlier source's record must come out first.
    let it = ShardMergeIterator::build(vec![
        vec![rec("a", "first")],
        vec![rec("A", "second")],
    ]);
    let out = it.into_sorted_vec();
    assert_eq!(out.len(), 2);
    assert_eq!(out[0].value, b"first".to_vec());
    assert_eq!(out[1].value, b"second".to_vec());
}

#[test]
fn test_merge_dict_wrapped_strings() {
    let wrap = |s: &str| DictComparableString::wrap(s.as_bytes().to_vec());
    let it = ShardMergeIterator::build(vec![
        vec![wrap("apple"), wrap("Pear")],
        vec![wrap("BANANA"), wrap("quince")],
    ]);
    let out: Vec<Vec<u8>> = it.into_sorted_vec().into_iter().map(|w| w.unwrap()).collect();
    assert_eq!(out, vec![
        b"apple".to_vec(),
        b"BANANA".to_vec(),
        b"Pear".to_vec(),
        b"quince".to_vec(),
    ]);
}
