use mapreduce::parameters::MRParameters;
use mapreduce::record_types::Record;
use mapreduce::reduce::RecordsToMultiRecords;

fn mk_rcrd(k: &str, v: &str) -> Record {
    Record { key: k.as_bytes().to_vec(), value: v.as_bytes().to_vec() }
}

fn get_records() -> Vec<Record> {
    vec![
        mk_rcrd("aaa", "def"),
        mk_rcrd("abb", "111"),
        mk_rcrd("Abb", "112"),
        mk_rcrd("abbb", "113"),
        mk_rcrd("abc", "xyz"),
        mk_rcrd("xyz", "___"),
        mk_rcrd("xyz", "__foo"),
        mk_rcrd("xyz", "---"),
    ]
}

#[test]
fn test_grouping_iterator() {
    let records = get_records();
    let mut group_it = RecordsToMultiRecords::new(
        records,
        MRParameters::new().set_reduce_group_opts(2, true),
    );

    let lengths = vec![1, 2, 1, 1, 3];
    let mut i = 0;

    while let Some(multirec) = group_it.next() {
        assert_eq!(multirec.into_values().len(), lengths[i]);
        i += 1;
    }
    assert_eq!(i, lengths.len());
}

#[test]
fn test_grouping_iterator_sensitive() {
    let records = get_records();
    let mut group_it = RecordsToMultiRecords::new(
        records,
        MRParameters::new().set_reduce_group_opts(2, false),
    );

    let lengths = vec![1, 1, 1, 1, 1, 3];
    let mut i = 0;

    while let Some(multirec) = group_it.next() {
        assert_eq!(multirec.into_values().len(), lengths[i]);
        i += 1;
    }
    assert_eq!(i, lengths.len());
}

#[test]
fn test_grouping_values_complete() {
    // The concatenation of the groups' values is the input's value
    // sequence, and the group keys are distinct.
    let records = get_records();
    let expected_values: Vec<Vec<u8>> = records.iter().map(|r| r.value.clone()).collect();
    let mut group_it = RecordsToMultiRecords::new(
        records,
        MRParameters::new().set_reduce_group_opts(1, true),
    );
    let mut all_values: Vec<Vec<u8>> = Vec::new();
    let mut keys: Vec<Vec<u8>> = Vec::new();
    while let Some(multirec) = group_it.next() {
        keys.push(multirec.key().clone());
        for v in multirec.into_values() {
            all_values.push(v);
        }
    }
    assert_eq!(all_values, expected_values);
    for i in 0..keys.len() {
        for j in (i + 1)..keys.len() {
            assert_ne!(keys[i], keys[j]);
        }
    }
    assert_eq!(keys[0], b"aaa".to_vec());
    assert_eq!(keys[1], b"abb".to_vec());
}
