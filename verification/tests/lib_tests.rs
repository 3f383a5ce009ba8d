use mapreduce::formats::lines::{LinesSinkGenerator, LinesWriter};
use mapreduce::parameters::MRParameters;
use mapreduce::phases::output::{SinkGenerator, get_reduce_output_name, map_output_name};
use mapreduce::util::u64_to_dec;

#[test]
fn it_works() {}

#[test]
fn test_u64_to_dec() {
    assert_eq!(u64_to_dec(0), b"0".to_vec());
    assert_eq!(u64_to_dec(7), b"7".to_vec());
    assert_eq!(u64_to_dec(1234), b"1234".to_vec());
    assert_eq!(u64_to_dec(1000000), b"1000000".to_vec());
}

#[test]
fn test_output_names() {
    assert_eq!(map_output_name(&b"x_".to_vec(), 2, 3), b"x_2.3".to_vec());
    let params = MRParameters::new().set_shard_id(5);
    assert_eq!(get_reduce_output_name(&params), b"output_5".to_vec());
    let params2 = MRParameters::new()
        .set_file_locations(b"im_".to_vec(), b"res_".to_vec())
        .set_shard_id(11);
    assert_eq!(get_reduce_output_name(&params2), b"res_11".to_vec());
}

#[test]
fn test_default_parameters() {
    let p = MRParameters::new();
    assert_eq!(p.key_buffer_size, 256);
    assert_eq!(p.mappers, 4);
    assert_eq!(p.reducers, 4);
    assert_eq!(p.map_partition_size, 100 * 1024 * 1024);
    assert_eq!(p.reduce_group_prealloc_size, 1);
    assert_eq!(p.reduce_group_insensitive, false);
    assert_eq!(p.map_output_location, b"map_intermediate_".to_vec());
    assert_eq!(p.keep_temp_files, false);
    assert_eq!(p.reduce_output_shard_prefix, b"output_".to_vec());
    assert_eq!(p.shard_id, 0);
}

#[test]
fn test_write_lines_buffer() {
    let line = b"abc def hello world".to_vec();
    let mut f = LinesWriter::new_to_write(Vec::new());
    for _ in 0..10 {
        f.write(&line);
    }
    assert_eq!(f.into_bytes().len(), 200);
}

#[test]
fn test_lines_sink_generator() {
    let gen = LinesSinkGenerator::new_to_files();
    let mut f = gen.new_output(&b"unused name".to_vec());
    f.write(&b"xy".to_vec());
    assert_eq!(f.into_bytes(), b"xy\n".to_vec());
}
