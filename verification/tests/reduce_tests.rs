use mapreduce::closure_mr::ClosureMapReducer;
use mapreduce::formats::lines::LinesSinkGenerator;
use mapreduce::formats::util::RecordReadIterator;
use mapreduce::formats::writelog::{WriteLogReader, WriteLogWriter};
use mapreduce::mapreducer::DefaultSharder;
use mapreduce::parameters::MRParameters;
use mapreduce::phases::output::SinkGenerator;
use mapreduce::record_types::{MultiRecord, Record};
use mapreduce::reduce::ReducePartition;

fn mk_rcrd(k: &str, v: &str) -> Record {
    Record { key: k.as_bytes().to_vec(), value: v.as_bytes().to_vec() }
}

fn get_records() -> Vec<Record> {
    vec![
        mk_rcrd("aaa", "def"),
        mk_rcrd("abb", "111"),
        mk_rcrd("Abb", "112"),
        mk_rcrd("abbb", "113"),
        mk_rcrd("abc", "xyz"),
        mk_rcrd("xyz", "___"),
        mk_rcrd("xyz", "__foo"),
        mk_rcrd("xyz", "---"),
    ]
}

fn records_to_stream(records: Vec<Record>) -> RecordReadIterator {
    let mut w = WriteLogWriter::new(Vec::new());
    for r in records {
        w.write(&r.key);
        w.write(&r.value);
    }
    RecordReadIterator::new(WriteLogReader::new(w.into_bytes()))
}

fn test_reducer(recs: MultiRecord) -> Vec<Vec<u8>> {
    let mut out: Vec<u8> = Vec::new();
    out.extend_from_slice(recs.key());
    out.push(b':');
    for val in recs.into_values() {
        out.push(b' ');
        out.extend_from_slice(&val);
    }
    vec![out]
}

fn fake_mapper(_: Record) -> Vec<Record> {
    Vec::new()
}

#[test]
fn test_reduce() {
    let mr = ClosureMapReducer::new(
        fake_mapper as fn(Record) -> Vec<Record>,
        test_reducer as fn(MultiRecord) -> Vec<Vec<u8>>,
    );
    let params = MRParameters::new()
        .set_shard_id(42)
        .set_reduce_group_opts(1, true)
        .set_file_locations(b"testdata/map_intermed_".to_vec(), b"testdata/result_".to_vec());
    let srcs = vec![records_to_stream(get_records())];
    let dst = LinesSinkGenerator::new_to_files();

    let r = ReducePartition::new(mr, params, srcs, dst.new_output(&b"0".to_vec()));
    r._run();
}

#[test]
fn test_reduce_output_lines() {
    let mr = ClosureMapReducer::new(
        fake_mapper as fn(Record) -> Vec<Record>,
        test_reducer as fn(MultiRecord) -> Vec<Vec<u8>>,
    );
    let params = MRParameters::new().set_reduce_group_opts(1, true);
    let srcs = vec![records_to_stream(get_records())];
    let dst = LinesSinkGenerator::new_to_files();

    let r = ReducePartition::new(mr, params, srcs, dst.new_output(&b"0".to_vec()));
    let out = r._run();
    let text = String::from_utf8(out.dst.into_bytes()).unwrap();
    let lines: Vec<&str> = text.lines().collect();
    assert_eq!(
        lines,
        vec![
            "aaa: def",
            "abb: 111 112",
            "abbb: 113",
            "abc: xyz",
            "xyz: ___ __foo ---",
        ],
    );
}

#[test]
fn test_reduce_merges_two_sources() {
    let mr = ClosureMapReducer::new(
        fake_mapper as fn(Record) -> Vec<Record>,
        test_reducer as fn(MultiRecord) -> Vec<Vec<u8>>,
    );
    let params = MRParameters::new().set_reduce_group_opts(1, false);
    let srcs = vec![
        records_to_stream(vec![mk_rcrd("apple", "1"), mk_rcrd("cherry", "3")]),
        records_to_stream(vec![mk_rcrd("apple", "2"), mk_rcrd("banana", "5")]),
    ];
    let dst = LinesSinkGenerator::new_to_files();
    let r = ReducePartition::new(mr, params, srcs, dst.new_output(&b"0".to_vec()));
    let out = r._run();
    let text = String::from_utf8(out.dst.into_bytes()).unwrap();
    let lines: Vec<&str> = text.lines().collect();
    assert_eq!(lines, vec!["apple: 1 2", "banana: 5", "cherry: 3"]);
}
