//! What holds of every line and of every list of tokens, proved from the
//! definitions that the contracts of the library use.

use crate::line::{after_target, comment_part, data_part, fields, has_target, qid_of};
use crate::scalar::{is_zero, reads};
use crate::text::{equal_to, lemma_first_match_is, position, split, tokens};
use crate::types::{
    assemble, first_value, increasing, kept, kept_below, listed, value_text, DataParse, DenseData,
    SparseView,
};
use crate::{parsed, Row, TargetReader};
use vstd::prelude::*;

verus! {

/// Decoding a line is a function of the line: two rows that `parse_line`
/// may return for the same line and the same decoders have the same
/// value, and so have two failures.
pub proof fn same_line_same_row<TR: TargetReader, DP: DataParse>(
    tr: &TR,
    dp: &DP,
    line: Seq<char>,
    first: Option<Row<TR::Out, DP::Out>>,
    second: Option<Row<TR::Out, DP::Out>>,
)
    requires
        first.deep_view() == parsed(tr, dp, line),
        second.deep_view() == parsed(tr, dp, line),
    ensures
        first.deep_view() == second.deep_view(),
        first is Some <==> second is Some,
{
}

/// All that follows the first `#` is the comment, as it stands, further
/// `#` included; what precedes it is the data. A line without `#` has no
/// comment and is all data.
pub proof fn comment_is_all_after_first_hash(before: Seq<char>, after: Seq<char>)
    requires
        !before.contains('#'),
    ensures
        comment_part(before + seq!['#'] + after) == Some(after),
        data_part(before + seq!['#'] + after) == before,
        comment_part(before) is None,
        data_part(before) == before,
{
    let line = before + seq!['#'] + after;
    assert forall|j: int| 0 <= j < before.len() implies !equal_to('#')(#[trigger] line[j]) by {
        assert(line[j] == before[j]);
        assert(before.contains(before[j]));
    }
    assert(line[before.len() as int] == '#');
    lemma_first_match_is(line, equal_to('#'), before.len() as int);
    assert(line.skip(before.len() as int + 1) == after);
    assert(line.take(before.len() as int) == before);
    assert forall|j: int| 0 <= j < before.len() implies !equal_to('#')(#[trigger] before[j]) by {
        assert(before.contains(before[j]));
    }
    lemma_first_match_is(before, equal_to('#'), before.len() as int);
    assert(before.take(before.len() as int) == before);
}

/// A line that begins with a space gives no token to the target: the
/// target is decoded from the empty text, and all tokens are group id and
/// features.
pub proof fn leading_space_keeps_every_token(line: Seq<char>)
    requires
        line.len() > 0,
        line[0] == ' ',
    ensures
        fields(line).target == Some(Seq::<char>::empty()),
        after_target(line) == tokens(data_part(line)),
        ({
            let words = tokens(data_part(line));
            let parts = fields(line);
            if words.len() > 0 && qid_of(words[0]) is Some {
                parts.qid == qid_of(words[0]) && parts.features == words.skip(1)
            } else {
                parts.qid is None && parts.features == words
            }
        }),
{
}

/// The token after the target is the group id where it writes one, and
/// the first feature token where it does not.
pub proof fn group_id_follows_target(line: Seq<char>)
    requires
        has_target(line),
        tokens(data_part(line)).len() > 0,
    ensures
        ({
            let words = tokens(data_part(line));
            let parts = fields(line);
            &&& parts.target == Some(words[0])
            &&& if words.len() > 1 && qid_of(words[1]) is Some {
                parts.qid == qid_of(words[1]) && parts.features == words.skip(2)
            } else {
                parts.qid is None && parts.features == words.skip(1)
            }
        }),
{
    let words = tokens(data_part(line));
    if words.len() > 1 {
        assert(words.skip(1).skip(1) == words.skip(2));
    }
}

/// A token without `:` is its own value text.
pub proof fn bare_value_is_the_token(token: Seq<char>)
    requires
        !token.contains(':'),
    ensures
        value_text(token) == token,
{
    assert forall|j: int| 0 <= j < token.len() implies !equal_to(':')(#[trigger] token[j]) by {
        assert(token.contains(token[j]));
    }
    lemma_first_match_is(token, equal_to(':'), token.len() as int);
}

/// The value text of `index:value` is `value`.
pub proof fn indexed_value_is_after_the_colon(index: Seq<char>, value: Seq<char>)
    requires
        !index.contains(':'),
        !value.contains(':'),
    ensures
        value_text(index + seq![':'] + value) == value,
{
    let token = index + seq![':'] + value;
    assert forall|j: int| 0 <= j < index.len() implies !equal_to(':')(#[trigger] token[j]) by {
        assert(token[j] == index[j]);
        assert(index.contains(index[j]));
    }
    assert(token[index.len() as int] == ':');
    lemma_first_match_is(token, equal_to(':'), index.len() as int);
    assert(token.skip(index.len() as int + 1) == value);
    bare_value_is_the_token(value);
    assert(split(token, ':') == seq![token.take(index.len() as int)] + split(value, ':'));
}

/// Dense features hold one value for each token, in the order of the
/// tokens: the value at a place is what the reader gives for the value
/// text of the token at that place. They exist exactly where the reader
/// gives a value for every token.
pub proof fn dense_has_one_value_for_each_token<F: Fn(&str) -> Option<u32>>(
    dp: DenseData<F>,
    tokens: Seq<Seq<char>>,
)
    ensures
        dp.decode(tokens) is Some <==> forall|i: int|
            0 <= i < tokens.len() ==> reads(dp.0, value_text(#[trigger] tokens[i])) is Some,
        dp.decode(tokens) matches Some(values) ==> {
            &&& values.len() == tokens.len()
            &&& forall|i: int|
                0 <= i < tokens.len() ==> Some(#[trigger] values[i]) == reads(
                    dp.0,
                    value_text(tokens[i]),
                )
        },
{
}

/// What the first value of an index is: the value of a pair with that
/// index before which no pair has it; there is none exactly where no pair
/// has the index.
pub proof fn first_value_is_of_the_first_pair(pairs: Seq<(usize, u32)>, index: usize)
    ensures
        match first_value(pairs, index) {
            Some(value) => exists|k: int|
                0 <= k < pairs.len() && #[trigger] pairs[k] == (index, value) && forall|j: int|
                    0 <= j < k ==> (#[trigger] pairs[j]).0 != index,
            None => forall|k: int| 0 <= k < pairs.len() ==> (#[trigger] pairs[k]).0 != index,
        },
    decreases pairs.len(),
{
    if pairs.len() > 0 {
        let front = pairs.drop_last();
        first_value_is_of_the_first_pair(front, index);
        match first_value(front, index) {
            Some(value) => {
                let k = choose|k: int|
                    0 <= k < front.len() && #[trigger] front[k] == (index, value) && forall|j: int|
                        0 <= j < k ==> (#[trigger] front[j]).0 != index;
                assert(pairs[k] == (index, value));
                assert forall|j: int| 0 <= j < k implies (#[trigger] pairs[j]).0 != index by {
                    assert(front[j] == pairs[j]);
                }
            },
            None => {
                assert forall|j: int| 0 <= j < pairs.len() - 1 implies (#[trigger] pairs[j]).0
                    != index by {
                    assert(front[j] == pairs[j]);
                }
                if pairs.last().0 == index {
                    assert(pairs[pairs.len() - 1] == (index, pairs.last().1));
                }
            },
        }
    }
}

/// The indices of `kept_below` are strictly increasing, and they are
/// exactly the indices below `n` for which a value is stored.
pub proof fn kept_below_lists_the_stored(dim: usize, pairs: Seq<(usize, u32)>, n: nat)
    requires
        n <= usize::MAX + 1,
    ensures
        increasing(kept_below(dim, pairs, n)),
        forall|k: int|
            0 <= k < kept_below(dim, pairs, n).len() ==> {
                &&& (#[trigger] kept_below(dim, pairs, n)[k]) < n
                &&& kept(dim, pairs, kept_below(dim, pairs, n)[k]) is Some
            },
        forall|i: usize|
            i < n && (#[trigger] kept(dim, pairs, i)) is Some ==> kept_below(dim, pairs, n).contains(
                i,
            ),
    decreases n,
{
    if n > 0 {
        let rest = kept_below(dim, pairs, (n - 1) as nat);
        let all = kept_below(dim, pairs, n);
        let top = (n - 1) as usize;
        kept_below_lists_the_stored(dim, pairs, (n - 1) as nat);
        assert forall|i: usize| i < n && (#[trigger] kept(dim, pairs, i)) is Some implies all.contains(
            i,
        ) by {
            if i < n - 1 {
                let k = choose|k: int| 0 <= k < rest.len() && rest[k] == i;
                assert(all[k] == i);
            } else {
                assert(all[all.len() - 1] == i);
            }
        }
    }
}

/// In a well-formed container, the dense form has the value of each
/// stored index at its place, and zero at every place not stored.
pub proof fn dense_form_of_well_formed(s: SparseView)
    requires
        s.wf(),
    ensures
        s.dense().len() == s.dim,
        forall|k: int|
            0 <= k < s.indices.len() ==> s.dense()[(#[trigger] s.indices[k]) as int] == s.values[k],
        forall|i: int| 0 <= i < s.dim && !s.indices.contains(i as usize) ==> s.dense()[i] == 0,
{
    assert forall|k: int| 0 <= k < s.indices.len() implies s.dense()[(#[trigger] s.indices[k]) as int]
        == s.values[k] by {
        listed_finds_the_value(s.indices, s.values, k);
    }
    assert forall|i: int| 0 <= i < s.dim && !s.indices.contains(i as usize) implies s.dense()[i]
        == 0 by {
        listed_is_zero_elsewhere(s.indices, s.values, i);
    }
}

/// Among strictly increasing indices, the value listed for the index at
/// place `k` is the value at place `k`.
pub proof fn listed_finds_the_value(indices: Seq<usize>, values: Seq<u32>, k: int)
    requires
        increasing(indices),
        indices.len() <= values.len(),
        0 <= k < indices.len(),
    ensures
        listed(indices, values, indices[k] as int) == values[k],
    decreases indices.len(),
{
    if k < indices.len() - 1 {
        assert(indices[k] < indices[indices.len() - 1]);
        let front = indices.drop_last();
        assert(front[k] == indices[k]);
        listed_finds_the_value(front, values, k);
    }
}

/// The value listed for an index that is not among the indices is zero.
pub proof fn listed_is_zero_elsewhere(indices: Seq<usize>, values: Seq<u32>, index: int)
    requires
        forall|k: int| 0 <= k < indices.len() ==> indices[k] != index,
    ensures
        listed(indices, values, index) == 0,
    decreases indices.len(),
{
    if indices.len() > 0 {
        let front = indices.drop_last();
        assert(indices[indices.len() - 1] != index);
        assert forall|k: int| 0 <= k < front.len() implies front[k] != index by {
            assert(front[k] == indices[k]);
        }
        listed_is_zero_elsewhere(front, values, index);
    }
}

/// The sparse container that pairs give is well formed: its indices are
/// strictly increasing, so none occurs twice, and all are below the
/// dimension; no value is zero. It stores exactly the indices below the
/// dimension whose first value is not zero, each with that value, and its
/// dense form has that value at the place of each of them and zero at
/// every other place.
pub proof fn sparse_is_sorted_filtered_and_expands(dim: usize, pairs: Seq<(usize, u32)>)
    ensures
        assemble(dim, pairs).wf(),
        assemble(dim, pairs).dim == dim,
        forall|i: usize|
            assemble(dim, pairs).indices.contains(i) <==> (#[trigger] kept(dim, pairs, i)) is Some,
        forall|k: int|
            0 <= k < assemble(dim, pairs).indices.len() ==> kept(
                dim,
                pairs,
                #[trigger] assemble(dim, pairs).indices[k],
            ) == Some(assemble(dim, pairs).values[k]),
        assemble(dim, pairs).dense().len() == dim,
        forall|i: int|
            0 <= i < dim ==> #[trigger] assemble(dim, pairs).dense()[i] == match kept(
                dim,
                pairs,
                i as usize,
            ) {
                Some(value) => value,
                None => 0,
            },
{
    let s = assemble(dim, pairs);
    kept_below_lists_the_stored(dim, pairs, dim as nat);
    assert(s.wf());
    assert forall|i: usize| s.indices.contains(i) implies (#[trigger] kept(dim, pairs, i)) is Some by {
        let k = choose|k: int| 0 <= k < s.indices.len() && s.indices[k] == i;
        assert(kept(dim, pairs, s.indices[k]) is Some);
    }
    dense_form_of_well_formed(s);
    assert forall|i: int| 0 <= i < dim implies #[trigger] s.dense()[i] == match kept(
        dim,
        pairs,
        i as usize,
    ) {
        Some(value) => value,
        None => 0,
    } by {
        if kept(dim, pairs, i as usize) is Some {
            let k = choose|k: int| 0 <= k < s.indices.len() && s.indices[k] == i as usize;
            assert(s.dense()[s.indices[k] as int] == s.values[k]);
        } else {
            assert(!s.indices.contains(i as usize));
        }
    }
}

} // verus!
