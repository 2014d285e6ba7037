use std::collections::HashSet;
use svmloader::reader::{Reader, State, Step};
use svmloader::types::{DataParse, DenseData, Dimension, Sparse, SparseData};
use svmloader::{
    parse_line, BinaryClassification, DisjointClassification, MultiLabelClassification,
    Regression, Row, Tags, TargetReader,
};

fn bits_of(text: &str) -> Option<u32> {
    text.parse::<f32>().ok().map(|v| v.to_bits())
}

fn floats(bits: &[u32]) -> Vec<f32> {
    bits.iter().map(|b| f32::from_bits(*b)).collect()
}

fn strings(items: &[&str]) -> Vec<String> {
    items.iter().map(|s| s.to_string()).collect()
}

#[test]
fn sparse_scenario_with_class_id() {
    let row = parse_line(
        &DisjointClassification,
        &SparseData(12, bits_of),
        "1 qid:1234 0:-13 11:10 # hello",
    )
    .unwrap();
    assert_eq!(row.y, 1usize);
    assert_eq!(row.qid, Some(1234));
    assert_eq!(row.comment, Some(" hello".to_string()));
    assert_eq!(row.x.0, 12);
    assert_eq!(row.x.1, vec![0usize, 11]);
    assert_eq!(floats(&row.x.2), vec![-13.0f32, 10.0]);
}

#[test]
fn parse_bool_1() {
    let sd = SparseData(12, bits_of);
    let td = BinaryClassification;
    let s2 = "-1 qid:1234 0:-13 11:10 # hello";
    let srow = parse_line(&td, &sd, s2);
    assert!(srow.is_some());
    let row = srow.unwrap();
    assert_eq!(row.y, false);
    assert_eq!(row.qid, Some(1234));
    assert_eq!(row.comment, Some(" hello".into()));
    assert_eq!(row.x.1, vec![0usize, 11]);
    assert_eq!(floats(&row.x.2), vec![-13.0f32, 10.0]);
}

#[test]
fn binary_accepts_only_one_and_minus_one() {
    let b = BinaryClassification;
    assert_eq!(b.process("1"), Some(true));
    assert_eq!(b.process("-1"), Some(false));
    for other in ["0", "", "+1", "1 ", " 1", "-1-", "11", "true", "-", "1.0"] {
        assert_eq!(b.process(other), None, "{:?}", other);
    }
}

#[test]
fn disjoint_reads_unsigned_integers() {
    let d = DisjointClassification;
    assert_eq!(d.process("0"), Some(0));
    assert_eq!(d.process("007"), Some(7));
    assert_eq!(d.process("+12"), Some(12));
    assert_eq!(d.process("18446744073709551615"), "18446744073709551615".parse::<usize>().ok());
    for bad in ["", "+", "-1", "-0", "1.5", "12a", " 1", "1 ", "18446744073709551616", "99999999999999999999999", "1_0"] {
        assert_eq!(d.process(bad), bad.parse::<usize>().ok(), "{:?}", bad);
        assert_eq!(d.process(bad), None, "{:?}", bad);
    }
}

#[test]
fn multi_label_collapses_and_drops() {
    let m = MultiLabelClassification;
    assert_eq!(m.process("3,5,3,x"), Some(HashSet::from([3usize, 5])));
    assert_eq!(m.process(""), Some(HashSet::new()));
    assert_eq!(m.process(",,"), Some(HashSet::new()));
    assert_eq!(m.process("7"), Some(HashSet::from([7usize])));
    assert_eq!(m.process("1,+2,-3, 4"), Some(HashSet::from([1usize, 2])));
}

#[test]
fn tags_are_distinct_and_never_empty() {
    let t = Tags;
    assert_eq!(t.process("a,b,a,,c"), Some(strings(&["a", "b", "c"])));
    assert_eq!(t.process(""), Some(strings(&[])));
    assert_eq!(t.process(",,,"), Some(strings(&[])));
    assert_eq!(t.process("x y,x y,z"), Some(strings(&["x y", "z"])));
}

#[test]
fn regression_uses_its_reader() {
    let r = Regression(bits_of);
    assert_eq!(r.process("1.5").map(f32::from_bits), Some(1.5f32));
    assert_eq!(r.process("-2e3").map(f32::from_bits), Some(-2000.0f32));
    assert_eq!(r.process("abc"), None);
    assert_eq!(r.process(""), None);
    let row = parse_line(&r, &DenseData(bits_of), "0.25 1 2").unwrap();
    assert_eq!(f32::from_bits(row.y), 0.25f32);
}

#[test]
fn dense_keeps_every_token_in_order() {
    let d = DenseData(bits_of);
    let out = d.parse(&strings(&["1.5", "3:2.5", "a:b:-4", "0"])).unwrap();
    assert_eq!(floats(&out), vec![1.5f32, 2.5, -4.0, 0.0]);
    assert_eq!(out.dims(), 4);
    assert_eq!(d.parse(&strings(&[])), Some(vec![]));
    assert_eq!(d.parse(&strings(&["1", "abc"])), None);
    assert_eq!(d.parse(&strings(&["1:"])), None);
    let row = parse_line(&BinaryClassification, &d, "1 7 8:9 10 # c").unwrap();
    assert_eq!(floats(&row.x), vec![7.0f32, 9.0, 10.0]);
}

#[test]
fn sparse_sorts_keeps_first_and_filters() {
    let s = SparseData(10, bits_of);
    let out = s.parse(&strings(&["5:1", "2:3", "5:9", "12:4", "7:0", "7:8", "3:-0", "9:2:x", "10:1"])).unwrap();
    assert_eq!(out.0, 10);
    assert_eq!(out.1, vec![2usize, 5, 9]);
    assert_eq!(floats(&out.2), vec![3.0f32, 1.0, 2.0]);
    assert_eq!(out.dims(), 10);
    let dense = floats(&out.to_dense());
    assert_eq!(dense, vec![0.0f32, 0.0, 3.0, 0.0, 0.0, 1.0, 0.0, 0.0, 0.0, 2.0]);
    assert!(out.to_dense().iter().all(|b| *b != 0x8000_0000));
}

#[test]
fn sparse_fails_on_any_bad_token() {
    let s = SparseData(10, bits_of);
    for bad in ["1", "a:1", "1:a", ":1", "1:", "-1:2", "1.0:2", ""] {
        assert!(s.parse(&strings(&["0:1", bad, "2:3"])).is_none(), "{:?}", bad);
    }
    let empty = s.parse(&strings(&[])).unwrap();
    assert!(empty.1.is_empty() && empty.2.is_empty());
    assert_eq!(empty.to_dense(), vec![0u32; 10]);
}

#[test]
fn sparse_keeps_values_that_are_not_zero() {
    let s = SparseData(4, bits_of);
    let out = s.parse(&strings(&["0:nan", "1:inf", "2:1e-60", "3:1e-40"])).unwrap();
    assert_eq!(out.1, vec![0usize, 1, 3]);
    assert!(f32::from_bits(out.2[0]).is_nan());
    assert_eq!(f32::from_bits(out.2[1]), f32::INFINITY);
    for b in out.2.iter() {
        assert!(f32::from_bits(*b) != 0.0);
    }
}

#[test]
fn to_dense_of_hand_built_container() {
    let s = Sparse(5, vec![1, 3], vec![7, 9]);
    assert_eq!(s.to_dense(), vec![0u32, 7, 0, 9, 0]);
    let again = Sparse(3, vec![2, 2], vec![4, 5, 6]);
    assert_eq!(again.to_dense(), vec![0u32, 0, 5]);
    assert_eq!(Sparse(0, vec![], vec![]).to_dense(), Vec::<u32>::new());
}

#[test]
fn leading_space_means_no_target() {
    let d = DenseData(bits_of);
    let row = parse_line(&MultiLabelClassification, &d, " qid:7 1 2").unwrap();
    assert!(row.y.is_empty());
    assert_eq!(row.qid, Some(7));
    assert_eq!(floats(&row.x), vec![1.0f32, 2.0]);
    let row = parse_line(&Tags, &d, " 1 2 3").unwrap();
    assert!(row.y.is_empty());
    assert_eq!(row.qid, None);
    assert_eq!(floats(&row.x), vec![1.0f32, 2.0, 3.0]);
    assert!(parse_line(&BinaryClassification, &d, " 1 2 3").is_none());
    assert!(parse_line(&DisjointClassification, &d, " 1 2 3").is_none());
    let tabbed = parse_line(&DisjointClassification, &d, "\t4 5").unwrap();
    assert_eq!(tabbed.y, 4);
}

#[test]
fn qid_is_taken_only_where_it_is_one() {
    let d = DenseData(bits_of);
    let t = DisjointClassification;
    assert_eq!(parse_line(&t, &d, "1 qid:1234 5").unwrap().qid, Some(1234));
    assert_eq!(parse_line(&t, &d, "1 qid:+3 5").unwrap().qid, Some(3));
    let row = parse_line(&t, &d, "1 3:4 qid:9").unwrap();
    assert_eq!(row.qid, None);
    assert_eq!(floats(&row.x), vec![4.0f32, 9.0]);
    let row = parse_line(&t, &d, "1 qid:12:34 5").unwrap();
    assert_eq!(row.qid, None);
    assert_eq!(floats(&row.x), vec![34.0f32, 5.0]);
    let row = parse_line(&t, &d, "1 qid:99999999999999999999999 5").unwrap();
    assert_eq!(row.qid, None);
    assert_eq!(row.x.len(), 2);
    assert!(parse_line(&t, &d, "1 qid: 5").is_none());
    let row = parse_line(&t, &d, "1 Qid:3 5").unwrap();
    assert_eq!(row.qid, None);
    assert_eq!(floats(&row.x), vec![3.0f32, 5.0]);
    assert!(parse_line(&t, &SparseData(9, bits_of), "1 qid:x 0:5").is_none());
    let row = parse_line(&t, &d, "1 qid:1 qid:2").unwrap();
    assert_eq!(row.qid, Some(1));
    assert_eq!(floats(&row.x), vec![2.0f32]);
}

#[test]
fn comment_is_everything_after_the_first_hash() {
    let d = DenseData(bits_of);
    let t = DisjointClassification;
    assert_eq!(parse_line(&t, &d, "1 2").unwrap().comment, None);
    assert_eq!(parse_line(&t, &d, "1 2#").unwrap().comment, Some(String::new()));
    assert_eq!(parse_line(&t, &d, "1 2 # a # b ## \n").unwrap().comment, Some(" a # b ## \n".to_string()));
    assert_eq!(parse_line(&t, &d, "1 2#3 4").unwrap().x.len(), 1);
    assert!(parse_line(&t, &d, "# only a comment").is_none());
}

#[test]
fn blank_and_broken_lines_give_nothing() {
    let d = DenseData(bits_of);
    assert!(parse_line(&Tags, &d, "").is_none());
    assert!(parse_line(&Tags, &d, "\n").is_none());
    assert!(parse_line(&Tags, &d, "\t \t").is_none());
    assert!(parse_line(&DisjointClassification, &d, "x 1 2").is_none());
    assert!(parse_line(&DisjointClassification, &d, "1 abc").is_none());
    let row = parse_line(&DisjointClassification, &d, "3").unwrap();
    assert_eq!((row.y, row.qid, row.x.len()), (3, None, 0));
}

#[test]
fn tokens_split_on_every_white_space() {
    let d = DenseData(bits_of);
    let row = parse_line(&DisjointClassification, &d, "1\u{a0}2\t3\u{2003}4\u{3000}5 \r\n").unwrap();
    assert_eq!(floats(&row.x), vec![2.0f32, 3.0, 4.0, 5.0]);
    for code in 0u32..=0x10ffff {
        if let Some(c) = char::from_u32(code) {
            assert_eq!(svmloader::text::space(c), c.is_whitespace(), "{:x}", code);
        }
    }
}

#[test]
fn same_line_gives_equal_rows() {
    let t = MultiLabelClassification;
    let s = SparseData(20, bits_of);
    let line = "4,2,4 qid:3 9:1 1:2 9:5 # c";
    let a = parse_line(&t, &s, line).unwrap();
    let b = parse_line(&t, &s, line).unwrap();
    assert_eq!(a.y, b.y);
    assert_eq!((a.x.0, &a.x.1, &a.x.2), (b.x.0, &b.x.1, &b.x.2));
    assert_eq!((a.qid, &a.comment), (b.qid, &b.comment));
    assert_eq!(a.x.1, vec![1usize, 9]);
}

#[test]
fn row_new_keeps_its_parts() {
    let row = Row::new(5u8, "x", Some(2), Some("c".to_string()));
    assert_eq!((row.y, row.x, row.qid, row.comment), (5u8, "x", Some(2), Some("c".to_string())));
}

#[test]
fn sequence_skips_broken_lines_and_ends_once() {
    let t = DisjointClassification;
    let d = DenseData(bits_of);
    let mut reader = Reader::new(&t, &d);
    assert_eq!(reader.state(), State::Reading);
    match reader.feed(Some("1 2 3\n")) {
        Step::Yield(row) => assert_eq!((row.y, floats(&row.x)), (1, vec![2.0f32, 3.0])),
        _ => panic!("no row"),
    }
    assert_eq!(reader.state(), State::Yielding);
    assert!(matches!(reader.feed(Some("2 abc\n")), Step::Skip));
    assert_eq!(reader.state(), State::Reading);
    assert!(matches!(reader.feed(Some("\n")), Step::Skip));
    match reader.feed(Some("3 4\n")) {
        Step::Yield(row) => assert_eq!(row.y, 3),
        _ => panic!("no row"),
    }
    assert!(matches!(reader.feed(None), Step::Stop));
    assert_eq!(reader.state(), State::Exhausted);
    assert!(matches!(reader.feed(Some("4 5\n")), Step::Stop));
    assert!(matches!(reader.feed(None), Step::Stop));
    assert_eq!(reader.state(), State::Exhausted);
}
