use svmloader::types::SparseData;
use svmloader::{parse_line, DisjointClassification};

fn bits_of(text: &str) -> Option<u32> {
    text.parse::<f32>().ok().map(|v| v.to_bits())
}

#[test]
fn parse_line_1() {
    let sd = SparseData(12, bits_of);
    let td = DisjointClassification;

    let s = "1 qid:1234 0:-13 11:10 # hello";
    let srow = parse_line(&td, &sd, s);
    assert!(srow.is_some());
    let row = srow.unwrap();

    assert_eq!(row.y, 1usize);
    assert_eq!(row.qid, Some(1234));
    assert_eq!(row.comment, Some(" hello".into()));
}
