use mapreduce::controller::MRController;
use mapreduce::mapreducer::{Mapper, Reducer, Sharder, _std_shard};
use mapreduce::parameters::MRParameters;
use mapreduce::record_types::{MEmitter, MultiRecord, REmitter, Record};
use mapreduce::input_cache::InputCache;
use mapreduce::record_types::RecordStream;
use mapreduce::util::RecordIterator;

#[derive(Clone)]
struct WcMapper;

impl Mapper for WcMapper {
    fn map(&mut self, em: &mut MEmitter, record: Record) {
        let text = String::from_utf8(record.value).unwrap();
        for w in text.split_whitespace() {
            em.emit(w.as_bytes().to_vec(), b"1".to_vec());
        }
    }
}

#[derive(Clone)]
struct WcReducer;

impl Reducer for WcReducer {
    fn reduce(&mut self, em: &mut REmitter, records: MultiRecord) {
        let mut line: Vec<u8> = Vec::new();
        line.extend_from_slice(records.key());
        line.extend_from_slice(b": ");
        let count = records.into_values().len();
        line.extend_from_slice(count.to_string().as_bytes());
        em.emit(line);
    }
}

#[derive(Clone)]
struct WcSharder;

impl Sharder for WcSharder {
}

fn word_count_input() -> RecordIterator {
    RecordIterator::new(vec![
        b"abc def".to_vec(),
        b"xy yz za".to_vec(),
        b"hello world".to_vec(),
        b"let's do this".to_vec(),
        b"foo bar baz".to_vec(),
    ])
}

#[test]
fn test_word_count_end_to_end() {
    // Word count with 3 reducers and the default hash-mod sharder: the
    // union of all final shards holds exactly one line per distinct
    // word, with count 1.
    let params = MRParameters::new().set_concurrency(4, 3);
    let out = MRController::run(WcMapper, WcReducer, WcSharder, params, word_count_input());
    assert_eq!(out.outputs.len(), 3);

    let mut all_lines: Vec<String> = Vec::new();
    for shard in out.outputs.iter() {
        let text = String::from_utf8(shard.clone()).unwrap();
        for line in text.lines() {
            all_lines.push(String::from(line));
        }
    }
    let words = [
        "abc", "def", "xy", "yz", "za", "hello", "world", "let's", "do", "this", "foo", "bar",
        "baz",
    ];
    assert_eq!(all_lines.len(), words.len());
    for w in words.iter() {
        let expected = format!("{}: 1", w);
        assert_eq!(all_lines.iter().filter(|l| **l == expected).count(), 1);
    }
}

#[test]
fn test_word_count_shards_cover_all_reducers() {
    // With 3 reducers and 13 distinct keys under the default sharder,
    // every shard file exists; with this input each also gets some key.
    let params = MRParameters::new().set_concurrency(4, 3);
    let out = MRController::run(WcMapper, WcReducer, WcSharder, params, word_count_input());
    assert_eq!(out.outputs.len(), 3);
    assert_eq!(out.intermediates.len(), 1);
    assert_eq!(out.intermediates[0].len(), 3);
    for shard in out.outputs.iter() {
        assert!(shard.len() > 0);
    }
}

#[test]
fn test_sharder_deterministic_and_in_range() {
    for n in 1usize..7 {
        for key in ["", "a", "word", "Another Key"].iter() {
            let k = key.as_bytes().to_vec();
            let s1 = _std_shard(n, &k);
            let s2 = _std_shard(n, &k);
            assert_eq!(s1, s2);
            assert!(s1 < n);
        }
    }
}

#[test]
fn test_empty_input_run() {
    let params = MRParameters::new().set_concurrency(2, 2);
    let out = MRController::run(
        WcMapper,
        WcReducer,
        WcSharder,
        params,
        RecordIterator::new(Vec::new()),
    );
    assert_eq!(out.intermediates.len(), 0);
    assert_eq!(out.outputs.len(), 2);
    for shard in out.outputs.iter() {
        assert_eq!(shard.len(), 0);
    }
}

#[test]
fn test_chunking_by_partition_size() {
    // A tiny byte budget forces one chunk per record.
    let params = MRParameters::new().set_concurrency(1, 1).set_partition_size(1);
    let out = MRController::run(WcMapper, WcReducer, WcSharder, params, word_count_input());
    assert_eq!(out.intermediates.len(), 5);
}

#[test]
fn test_input_cache_len_fixed_under_traversal() {
    let mut it = RecordIterator::new(vec![b"one".to_vec(), b"two".to_vec(), b"three".to_vec()]);
    let mut cache = InputCache::from_iter(2, usize::MAX, &mut it);
    assert_eq!(cache.len(), 3);
    assert!(cache.next().is_some());
    assert!(cache.next().is_some());
    assert_eq!(cache.len(), 3);
    assert!(cache.next().is_some());
    assert!(cache.next().is_none());
    assert_eq!(cache.len(), 3);
}
