use station_stats::intern::Interner;
use station_stats::partition::{aggregate_file, worker_range};
use station_stats::record::Record;
use station_stats::scan::{read_file, FormatError, Measurement, ScanError};
use station_stats::store::{join_infos, FinalInfo};
use station_stats::temperature::{byte_to_num, is_valid_text, Temperature};

fn summary_of(data: &[u8], workers: usize) -> String {
    let info = aggregate_file(data, workers).unwrap();
    String::from_utf8(info.summary()).unwrap()
}

fn record_of(info: &FinalInfo, key: &[u8]) -> Record {
    let id = info.names.names.iter().position(|n| n.as_slice() == key).unwrap();
    info.records[id]
}

#[test]
fn parses_fixed_point_text() {
    assert_eq!(Temperature::from_bytes(b"12.3"), Temperature(123));
    assert_eq!(Temperature::from_bytes(b"-2.3"), Temperature(-23));
    assert_eq!(Temperature::from_bytes(b"0.0"), Temperature(0));
    assert_eq!(Temperature::from_bytes(b"-0.7"), Temperature(-7));
    assert_eq!(Temperature::from_bytes(b"99.9"), Temperature(999));
    assert_eq!(Temperature::from_bytes(b"-99.9"), Temperature(-999));
    assert_eq!(byte_to_num(b'7'), 7);
}

#[test]
fn renders_fixed_point_text() {
    assert_eq!(Temperature(123).to_bytes(), b"12.3".to_vec());
    assert_eq!(Temperature(-23).to_bytes(), b"-2.3".to_vec());
    assert_eq!(Temperature(-7).to_bytes(), b"-0.7".to_vec());
    assert_eq!(Temperature(0).to_bytes(), b"0.0".to_vec());
    assert_eq!(Temperature(-999).to_bytes(), b"-99.9".to_vec());
}

#[test]
fn text_round_trips() {
    for text in ["0.0", "5.0", "-2.3", "41.0", "99.9", "-99.9", "10.1", "-0.1"] {
        let t = Temperature::from_bytes(text.as_bytes());
        assert_eq!(t.to_bytes(), text.as_bytes().to_vec());
    }
    let t = Temperature::from_bytes(b"-0.0");
    assert_eq!(t.to_bytes(), b"0.0".to_vec());
}

#[test]
fn checks_value_text() {
    assert!(is_valid_text(b"1.2"));
    assert!(is_valid_text(b"-12.3"));
    assert!(!is_valid_text(b""));
    assert!(!is_valid_text(b"-"));
    assert!(!is_valid_text(b"123.4"));
    assert!(!is_valid_text(b"1.23"));
    assert!(!is_valid_text(b"12"));
    assert!(!is_valid_text(b"a.b"));
    assert!(!is_valid_text(b"--1.2"));
}

#[test]
fn measurement_holds_name_and_value() {
    let m = Measurement::from_bytes(b"Oslo", b"-2.3");
    assert_eq!(m.station_name, b"Oslo");
    assert_eq!(m.measurement, Temperature(-23));
}

#[test]
fn record_folds_observations() {
    let mut r = Record::new();
    r.add_measure(Temperature(-23));
    r.add_measure(Temperature(50));
    assert_eq!(r.min(), Temperature(-23));
    assert_eq!(r.max(), Temperature(50));
    assert_eq!(r.sum(), 27);
    assert_eq!(r.count(), 2);
    assert_eq!(r.mean(), 14);
}

#[test]
fn saturated_bounds_match_plain_comparison() {
    let values = [5, -999, 12, 999, -999, 0, 999, -3];
    let mut r = Record::new();
    let (mut lo, mut hi, mut sum) = (999i16, -999i16, 0i64);
    for v in values {
        r.add_measure(Temperature(v));
        lo = lo.min(v);
        hi = hi.max(v);
        sum += v as i64;
        assert_eq!(r.min(), Temperature(lo));
        assert_eq!(r.max(), Temperature(hi));
        assert_eq!(r.sum(), sum);
    }
    assert_eq!(r.count(), values.len() as u64);
}

#[test]
fn mean_rounds_half_up() {
    let mut r = Record::new();
    r.add_measure(Temperature(-23));
    r.add_measure(Temperature(-4));
    assert_eq!(r.mean(), -13);
    let mut r = Record::new();
    r.add_measure(Temperature(10));
    r.add_measure(Temperature(11));
    r.add_measure(Temperature(11));
    assert_eq!(r.mean(), 11);
}

#[test]
fn record_add_assign_combines() {
    let mut a = Record::new();
    a.add_measure(Temperature(10));
    let mut b = Record::new();
    b.add_measure(Temperature(-5));
    b.add_measure(Temperature(30));
    a.add_assign(&b);
    assert_eq!(a.min(), Temperature(-5));
    assert_eq!(a.max(), Temperature(30));
    assert_eq!(a.sum(), 35);
    assert_eq!(a.count(), 3);
}

#[test]
fn interner_gives_dense_ids_in_first_seen_order() {
    let mut i = Interner::new();
    let a = i.intern(b"Oslo");
    let b = i.intern(b"Cairo");
    let c = i.intern(b"Oslo");
    assert_eq!(a.0, 0);
    assert_eq!(b.0, 1);
    assert_eq!(c, a);
    assert_eq!(i.len(), 2);
    assert_eq!(i.name(b), b"Cairo");
}

#[test]
fn end_to_end_example() {
    let data = b"Oslo;-2.3\nOslo;5.0\nCairo;41.0\n";
    assert_eq!(summary_of(data, 1), "{Cairo=41.0/41.0/41.0, Oslo=-2.3/1.4/5.0}");
    assert_eq!(summary_of(data, 3), "{Cairo=41.0/41.0/41.0, Oslo=-2.3/1.4/5.0}");
}

#[test]
fn empty_file_gives_empty_summary() {
    assert_eq!(summary_of(b"", 1), "{}");
    assert_eq!(summary_of(b"", 4), "{}");
}

#[test]
fn boundary_inside_value_counts_record_once() {
    let data = b"Abha;12.5\nBern;-3.1\n";
    let data2 = b"Ab;1.0\nCd;-22.2\nEf;3.0\n";
    let (s0, e0) = worker_range(data2.len(), 2, 0);
    let (s1, e1) = worker_range(data2.len(), 2, 1);
    assert_eq!((s0, e0, s1, e1), (0, 11, 11, 23));
    let first = read_file(s0, e0 - s0, data2).unwrap();
    let second = read_file(s1, e1 - s1, data2).unwrap();
    assert_eq!(first.total, 2);
    assert_eq!(second.total, 1);
    assert_eq!(record_of(&first, b"Cd").min(), Temperature(-222));
    let joined = join_infos(vec![first, second]);
    assert_eq!(joined.total, 3);
    assert_eq!(String::from_utf8(joined.summary()).unwrap(), "{Ab=1.0/1.0/1.0, Cd=-22.2/-22.2/-22.2, Ef=3.0/3.0/3.0}");
    assert_eq!(summary_of(data, 2), "{Abha=12.5/12.5/12.5, Bern=-3.1/-3.1/-3.1}");
}

#[test]
fn worker_counts_agree() {
    let data = b"a;1.0\nbb;-2.5\na;3.0\nccc;99.9\nbb;0.5\na;-99.9\nd;7.7\n";
    let one = summary_of(data, 1);
    for n in 2..=12 {
        assert_eq!(summary_of(data, n), one);
    }
    assert_eq!(one, "{a=-99.9/-32.0/3.0, bb=-2.5/-1.0/0.5, ccc=99.9/99.9/99.9, d=7.7/7.7/7.7}");
}

#[test]
fn last_worker_reads_to_the_end() {
    let data = b"x;1.0\nx;2.0\nx;3.0\nx;4.0\nx;5.0\n";
    assert_eq!(worker_range(data.len(), 4, 3), (21, 30));
    let info = aggregate_file(data, 4).unwrap();
    assert_eq!(info.total, 5);
    assert_eq!(record_of(&info, b"x").sum(), 150);
}

#[test]
fn merge_is_order_independent() {
    let a = read_file(0, 12, b"p;1.0\nq;2.0\n").unwrap();
    let b = read_file(0, 12, b"q;5.0\nr;3.0\n").unwrap();
    let mut ab = FinalInfo::new();
    ab.merge(&a);
    ab.merge(&b);
    let mut ba = FinalInfo::new();
    ba.merge(&b);
    ba.merge(&a);
    assert_eq!(ab.summary(), ba.summary());
    assert_eq!(String::from_utf8(ab.summary()).unwrap(), "{p=1.0/1.0/1.0, q=2.0/3.5/5.0, r=3.0/3.0/3.0}");
}

#[test]
fn keys_sort_bytewise() {
    let data = b"b;1.0\nB;1.0\nab;1.0\na;1.0\n";
    assert_eq!(summary_of(data, 1), "{B=1.0/1.0/1.0, a=1.0/1.0/1.0, ab=1.0/1.0/1.0, b=1.0/1.0/1.0}");
}

#[test]
fn missing_newline_is_an_error() {
    let r = aggregate_file(b"a;1.0\nb;2.0", 1);
    assert_eq!(r.unwrap_err(), ScanError { offset: 6, kind: FormatError::MissingNewline });
}

#[test]
fn missing_separator_is_an_error() {
    let r = aggregate_file(b"a;1.0\nb 2.0\n", 2);
    assert_eq!(r.unwrap_err(), ScanError { offset: 6, kind: FormatError::MissingSeparator });
}

#[test]
fn bad_value_is_an_error() {
    let r = read_file(0, 8, b"a;100.0\n");
    assert_eq!(r.unwrap_err(), ScanError { offset: 0, kind: FormatError::BadValue });
}
