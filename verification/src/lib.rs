//! A reader for the SVMLight / libsvm family of line-oriented
//! labelled-feature-vector text formats.
//!
//! A line holds a target, an optional group id, feature tokens and an
//! optional comment. How the target and the features are decoded is chosen
//! by the caller: a [`TargetReader`] for the target and a
//! [`types::DataParse`] for the features.
//!
//! Every contract is stated over `Seq<char>`, the view of the text.

pub mod laws;
pub mod line;
pub mod number;
pub mod reader;
pub mod scalar;
pub mod text;
pub mod types;

pub use crate::reader::{Reader, State, Step};

use crate::line::{fields, parse_qid};
use crate::number::{parse_unsigned, usize_of};
use crate::scalar::{is_reader, read, reads};
use crate::text::{cut, find, split, to_chars, to_string, words};
use crate::types::DataParse;
use std::collections::HashSet;
use vstd::prelude::*;
use vstd::slice::slice_subrange;

verus! {

/// A way to decode the target token of a line.
pub trait TargetReader {
    /// What a target is decoded to.
    type Out: DeepView;

    /// Whether this decoder can be used.
    spec fn wf(&self) -> bool;

    /// The target that the token `data` writes, if it writes one.
    spec fn decode(&self, data: Seq<char>) -> Option<<Self::Out as DeepView>::V>;

    /// Decodes the token `data`.
    fn process(&self, data: &str) -> (out: Option<Self::Out>)
        requires
            self.wf(),
        ensures
            out.deep_view() == self.decode(data@),
    ;
}

/// Targets that are real numbers, read by the reader that it holds.
pub struct Regression<F>(pub F);

impl<F: Fn(&str) -> Option<u32>> TargetReader for Regression<F> {
    type Out = u32;

    open spec fn wf(&self) -> bool {
        is_reader(self.0)
    }

    open spec fn decode(&self, data: Seq<char>) -> Option<u32> {
        reads(self.0, data)
    }

    fn process(&self, data: &str) -> (out: Option<u32>) {
        read(&self.0, data)
    }
}

/// Targets that are one of two classes, written `1` and `-1`.
pub struct BinaryClassification;

impl TargetReader for BinaryClassification {
    type Out = bool;

    open spec fn wf(&self) -> bool {
        true
    }

    open spec fn decode(&self, data: Seq<char>) -> Option<bool> {
        if data == seq!['1'] {
            Some(true)
        } else if data == seq!['-', '1'] {
            Some(false)
        } else {
            None
        }
    }

    fn process(&self, data: &str) -> (out: Option<bool>) {
        let chars = to_chars(data);
        if chars.len() == 1 && chars[0] == '1' {
            assert(chars@ == seq!['1']);
            Some(true)
        } else if chars.len() == 2 && chars[0] == '-' && chars[1] == '1' {
            assert(chars@ == seq!['-', '1']);
            Some(false)
        } else {
            assert(seq!['1'].len() == 1 && seq!['1'][0] == '1');
            assert(seq!['-', '1'].len() == 2 && seq!['-', '1'][0] == '-' && seq!['-', '1'][1]
                == '1');
            None
        }
    }
}

/// Targets that are the id of one class.
pub struct DisjointClassification;

impl TargetReader for DisjointClassification {
    type Out = usize;

    open spec fn wf(&self) -> bool {
        true
    }

    open spec fn decode(&self, data: Seq<char>) -> Option<usize> {
        usize_of(data)
    }

    fn process(&self, data: &str) -> (out: Option<usize>) {
        let chars = to_chars(data);
        parse_unsigned(chars.as_slice())
    }
}

/// The class ids among `pieces`: the numbers that some piece writes.
pub open spec fn labels(pieces: Seq<Seq<char>>) -> Set<usize> {
    Set::new(|n: usize| exists|i: int| 0 <= i < pieces.len() && usize_of(#[trigger] pieces[i]) == Some(n))
}

/// Targets that are a set of class ids, separated by commas. A piece that
/// writes no class id is passed over.
pub struct MultiLabelClassification;

impl TargetReader for MultiLabelClassification {
    type Out = HashSet<usize>;

    open spec fn wf(&self) -> bool {
        true
    }

    open spec fn decode(&self, data: Seq<char>) -> Option<Set<usize>> {
        Some(labels(split(data, ',')))
    }

    fn process(&self, data: &str) -> (out: Option<HashSet<usize>>) {
        broadcast use vstd::std_specs::hash::group_hash_axioms;

        let chars = to_chars(data);
        let ranges = cut(chars.as_slice(), ',');
        let ghost pieces = split(chars@, ',');
        let mut classes: HashSet<usize> = HashSet::new();
        let mut k: usize = 0;
        assert(labels(pieces.take(0)) == Set::<usize>::empty());
        while k < ranges.len()
            invariant
                k <= ranges@.len() == pieces.len(),
                forall|j: int|
                    0 <= j < ranges@.len() ==> {
                        &&& (#[trigger] ranges@[j]).0 <= ranges@[j].1 <= chars@.len()
                        &&& chars@.subrange(ranges@[j].0 as int, ranges@[j].1 as int) == pieces[j]
                    },
                classes@ == labels(pieces.take(k as int)),
            decreases ranges@.len() - k,
        {
            let (a, b) = ranges[k];
            let cid = parse_unsigned(slice_subrange(chars.as_slice(), a, b));
            proof {
                lemma_labels_push(pieces.take(k as int), pieces[k as int]);
                assert(pieces.take(k + 1) == pieces.take(k as int).push(pieces[k as int]));
            }
            match cid {
                Some(n) => {
                    classes.insert(n);
                },
                None => {},
            }
            k += 1;
        }
        assert(pieces.take(k as int) == pieces);
        proof {
            lemma_set_deep_view(classes);
        }
        Some(classes)
    }
}

/// The distinct non-empty pieces among `pieces`, each at the place of its
/// first occurrence.
pub open spec fn tag_list(pieces: Seq<Seq<char>>) -> Seq<Seq<char>>
    decreases pieces.len(),
{
    if pieces.len() == 0 {
        seq![]
    } else {
        let head = tag_list(pieces.drop_last());
        let piece = pieces.last();
        if piece.len() == 0 || head.contains(piece) {
            head
        } else {
            head.push(piece)
        }
    }
}

/// Targets that are a set of tags, separated by commas. The set is held
/// as a list without repetitions; the empty tag is never in it.
pub struct Tags;

impl TargetReader for Tags {
    type Out = Vec<String>;

    open spec fn wf(&self) -> bool {
        true
    }

    open spec fn decode(&self, data: Seq<char>) -> Option<Seq<Seq<char>>> {
        Some(tag_list(split(data, ',')))
    }

    fn process(&self, data: &str) -> (out: Option<Vec<String>>) {
        let chars = to_chars(data);
        let ranges = cut(chars.as_slice(), ',');
        let ghost pieces = split(chars@, ',');
        let mut classes: Vec<String> = Vec::new();
        let mut k: usize = 0;
        assert(pieces.take(0) == Seq::<Seq<char>>::empty());
        assert(classes.deep_view() == Seq::<Seq<char>>::empty());
        while k < ranges.len()
            invariant
                k <= ranges@.len() == pieces.len(),
                forall|j: int|
                    0 <= j < ranges@.len() ==> {
                        &&& (#[trigger] ranges@[j]).0 <= ranges@[j].1 <= chars@.len()
                        &&& chars@.subrange(ranges@[j].0 as int, ranges@[j].1 as int) == pieces[j]
                    },
                classes.deep_view() == tag_list(pieces.take(k as int)),
            decreases ranges@.len() - k,
        {
            let (a, b) = ranges[k];
            assert(pieces.take(k + 1).drop_last() == pieces.take(k as int));
            if a < b {
                let tag = to_string(slice_subrange(chars.as_slice(), a, b));
                if !has_tag(&classes, &tag) {
                    let ghost before = classes.deep_view();
                    classes.push(tag);
                    assert(classes.deep_view() == before.push(tag@));
                }
            }
            k += 1;
        }
        assert(pieces.take(k as int) == pieces);
        Some(classes)
    }
}

/// Whether `tag` is one of `tags`.
pub fn has_tag(tags: &Vec<String>, tag: &String) -> (r: bool)
    ensures
        r == tags.deep_view().contains(tag@),
{
    let mut i: usize = 0;
    while i < tags.len()
        invariant
            i <= tags@.len(),
            forall|j: int| 0 <= j < i ==> tags.deep_view()[j] != tag@,
        decreases tags@.len() - i,
    {
        if tags[i] == *tag {
            assert(tags.deep_view()[i as int] == tag@);
            return true;
        }
        i += 1;
    }
    false
}

/// One decoded line.
pub struct Row<T, F> {
    /// The target.
    pub y: T,
    /// The features.
    pub x: F,
    /// The group id, where the line has one.
    pub qid: Option<usize>,
    /// The comment, where the line has one.
    pub comment: Option<String>,
}

/// The mathematical value of a [`Row`].
pub struct RowView<T, F> {
    pub y: T,
    pub x: F,
    pub qid: Option<usize>,
    pub comment: Option<Seq<char>>,
}

impl<T: DeepView, F: DeepView> DeepView for Row<T, F> {
    type V = RowView<T::V, F::V>;

    open spec fn deep_view(&self) -> RowView<T::V, F::V> {
        RowView {
            y: self.y.deep_view(),
            x: self.x.deep_view(),
            qid: self.qid,
            comment: self.comment.deep_view(),
        }
    }
}

impl<T, F> Row<T, F> {
    /// A row of the given parts.
    pub fn new(y: T, x: F, qid: Option<usize>, comment: Option<String>) -> (row: Self)
        ensures
            row == (Row { y, x, qid, comment }),
    {
        Row { y: y, x: x, qid: qid, comment: comment }
    }
}

/// The row that `line` writes under the decoders `tr` and `dp`: its parts,
/// with target and features decoded. There is none where no token stands
/// at the place of the target, or where either decoder finds nothing.
pub open spec fn parsed<TR: TargetReader, DP: DataParse>(tr: &TR, dp: &DP, line: Seq<char>) -> Option<
    RowView<<TR::Out as DeepView>::V, <DP::Out as DeepView>::V>,
> {
    let parts = fields(line);
    match parts.target {
        Some(target) => match (tr.decode(target), dp.decode(parts.features)) {
            (Some(y), Some(x)) => Some(RowView { y, x, qid: parts.qid, comment: parts.comment }),
            _ => None,
        },
        None => None,
    }
}

/// Decodes one line.
pub fn parse_line<TR: TargetReader, DP: DataParse>(tr: &TR, dp: &DP, line: &str) -> (row: Option<
    Row<TR::Out, DP::Out>,
>)
    requires
        tr.wf(),
        dp.wf(),
    ensures
        row.deep_view() == parsed(tr, dp, line@),
{
    let chars = to_chars(line);
    let n: usize = chars.len();
    let has_target = !(n > 0 && chars[0] == ' ');
    let hash: usize = find(chars.as_slice(), 0, '#');
    assert(chars@.skip(0) == chars@);
    let comment = if hash < n {
        Some(to_string(slice_subrange(chars.as_slice(), hash + 1, n)))
    } else {
        None
    };
    let tokens = words(slice_subrange(chars.as_slice(), 0, hash));
    let mut next: usize = 0;
    let target = if has_target {
        if tokens.len() == 0 {
            return None;
        }
        next = 1;
        tr.process(tokens[0].as_str())
    } else {
        proof {
            reveal_strlit("");
        }
        assert(""@ == Seq::<char>::empty());
        tr.process("")
    };
    let y = match target {
        Some(y) => y,
        None => {
            return None;
        },
    };
    let qid = if next < tokens.len() {
        parse_qid(tokens[next].as_str())
    } else {
        None
    };
    let ghost parts = fields(line@);
    let ghost rest = tokens.deep_view().skip(next as int);
    assert(rest == crate::line::after_target(line@));
    assert(next < tokens@.len() ==> rest[0] == tokens@[next as int]@);
    assert(qid == parts.qid);
    if qid.is_some() {
        next += 1;
        assert(tokens.deep_view().skip(next as int) == rest.skip(1));
    }
    let features = slice_subrange(tokens.as_slice(), next, tokens.len());
    assert(features.deep_view() == tokens.deep_view().skip(next as int));
    assert(features.deep_view() == parts.features);
    let x = match dp.parse(features) {
        Some(x) => x,
        None => {
            return None;
        },
    };
    Some(Row::new(y, x, qid, comment))
}

/// One more piece adds the class id that it writes, if it writes one.
pub proof fn lemma_labels_push(pieces: Seq<Seq<char>>, piece: Seq<char>)
    ensures
        labels(pieces.push(piece)) == match usize_of(piece) {
            Some(n) => labels(pieces).insert(n),
            None => labels(pieces),
        },
{
    let more = pieces.push(piece);
    let expected = match usize_of(piece) {
        Some(n) => labels(pieces).insert(n),
        None => labels(pieces),
    };
    assert forall|n: usize| labels(more).contains(n) <==> expected.contains(n) by {
        if labels(more).contains(n) {
            let i = choose|i: int| 0 <= i < more.len() && usize_of(#[trigger] more[i]) == Some(n);
            if i < pieces.len() {
                assert(more[i] == pieces[i]);
            }
        }
        if expected.contains(n) {
            if labels(pieces).contains(n) {
                let i = choose|i: int|
                    0 <= i < pieces.len() && usize_of(#[trigger] pieces[i]) == Some(n);
                assert(more[i] == pieces[i]);
            } else {
                assert(more[pieces.len() as int] == piece);
            }
        }
    }
}

/// A set of integers is its own deep view.
pub proof fn lemma_set_deep_view(s: HashSet<usize>)
    ensures
        s.deep_view() == s@,
{
    assert forall|n: usize| s.deep_view().contains(n) <==> s@.contains(n) by {
        if s@.contains(n) {
            assert(n.deep_view() == n);
        }
    }
}

} // verus!
