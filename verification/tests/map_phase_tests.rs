use std::cmp::Ordering;
use mapreduce::closure_mr::ClosureMapReducer;
use mapreduce::formats::util::{PosRecordIterator, RecordReadIterator};
use mapreduce::formats::writelog::{WriteLogGenerator, WriteLogReader};
use mapreduce::mapreducer::DefaultSharder;
use mapreduce::parameters::MRParameters;
use mapreduce::phases::map::MapPartition;
use mapreduce::record_types::{MultiRecord, Record, RecordStream};
use mapreduce::sort::dict_string_compare;

fn mapper_func(r: Record) -> Vec<Record> {
    let text = String::from_utf8(r.value).unwrap();
    let mut out = Vec::new();
    for w in text.split_whitespace() {
        out.push(Record { key: w.as_bytes().to_vec(), value: b"1".to_vec() });
    }
    out
}

fn reducer_func(_: MultiRecord) -> Vec<Vec<u8>> {
    Vec::new()
}

fn get_mr() -> ClosureMapReducer<
    fn(Record) -> Vec<Record>,
    fn(MultiRecord) -> Vec<Vec<u8>>,
    DefaultSharder,
> {
    ClosureMapReducer::new(mapper_func, reducer_func)
}

fn get_input() -> PosRecordIterator {
    let inp: Vec<Vec<u8>> = vec![
        b"abc def".to_vec(),
        b"xy yz za".to_vec(),
        b"hello world".to_vec(),
        b"let's do this".to_vec(),
        b"foo bar baz".to_vec(),
    ];
    PosRecordIterator::new(inp)
}

fn get_output() -> WriteLogGenerator {
    WriteLogGenerator::new()
}

#[test]
fn test_map_partition() {
    let reducers = 3;
    let mp = MapPartition::_new(
        MRParameters::new().set_concurrency(4, reducers).set_file_locations(
            b"testdata/map_im_".to_vec(),
            b"testdata/result_".to_vec(),
        ),
        get_input(),
        get_mr(),
        get_mr(),
        get_output(),
    );
    mp._run();
}

fn read_file_records(bytes: &Vec<u8>) -> Vec<Record> {
    let mut it = RecordReadIterator::new(WriteLogReader::new(bytes.clone()));
    let mut out = Vec::new();
    while let Some(rec) = it.next() {
        out.push(rec);
    }
    out
}

#[test]
fn test_map_partition_files_sorted_and_sharded() {
    // One map chunk over word-count input: every intermediate file's keys
    // are non-decreasing, each distinct word lands in exactly one file,
    // and the (key, value) pairs across all files are exactly the
    // mapper's emissions.
    let reducers = 3;
    let mp = MapPartition::_new(
        MRParameters::new().set_concurrency(4, reducers),
        get_input(),
        get_mr(),
        get_mr(),
        get_output(),
    );
    let out = mp._run();
    assert_eq!(out.files.len(), 3);

    let mut all_pairs: Vec<(Vec<u8>, Vec<u8>)> = Vec::new();
    for (shard, file) in out.files.iter().enumerate() {
        let recs = read_file_records(file);
        for w in recs.windows(2) {
            assert_ne!(dict_string_compare(&w[0].key, &w[1].key), Ordering::Greater);
        }
        for rec in recs {
            // Sharding: a key occurs only in its own shard's file.
            for (other, ofile) in out.files.iter().enumerate() {
                if other != shard {
                    for orec in read_file_records(ofile) {
                        assert_ne!(orec.key, rec.key);
                    }
                }
            }
            all_pairs.push((rec.key, rec.value));
        }
    }

    // Completeness: one pair per emitted word, value "1".
    let words = [
        "abc", "def", "xy", "yz", "za", "hello", "world", "let's", "do", "this", "foo", "bar",
        "baz",
    ];
    assert_eq!(all_pairs.len(), words.len());
    for w in words.iter() {
        let cnt = all_pairs
            .iter()
            .filter(|(k, v)| k == &w.as_bytes().to_vec() && v == &b"1".to_vec())
            .count();
        assert_eq!(cnt, 1);
    }
}
