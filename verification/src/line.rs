//! The anatomy of a line: target token, group id, feature tokens and
//! comment.
//!
//! ```text
//! line          := [ " " ] [ target-token ] [ " " qid-token ] { " " feature-token } [ "#" comment ]
//! qid-token     := "qid:" unsigned-integer
//! ```
//!
//! A line that begins with a space has no target token.

use crate::number::{parse_unsigned, usize_of};
use crate::text::{position, to_chars, tokens};
use vstd::prelude::*;
use vstd::slice::slice_subrange;

verus! {

/// The parts of a line, before any of them is decoded.
pub struct Fields {
    /// The text that the target is decoded from: the first token, or the
    /// empty text where the line has no place for a target. `None` where
    /// the line has a place for a target and no token stands there.
    pub target: Option<Seq<char>>,
    /// The group id.
    pub qid: Option<usize>,
    /// The feature tokens, in order.
    pub features: Seq<Seq<char>>,
    /// The comment: all that follows the first `#`.
    pub comment: Option<Seq<char>>,
}

/// Whether the line has a place for a target: it does not begin with a
/// space.
pub open spec fn has_target(line: Seq<char>) -> bool {
    !(line.len() > 0 && line[0] == ' ')
}

/// The line up to its first `#`; the whole line where it has none.
pub open spec fn data_part(line: Seq<char>) -> Seq<char> {
    line.take(position(line, '#') as int)
}

/// All that follows the first `#` of the line, as it stands; `None` where
/// the line has no `#`.
pub open spec fn comment_part(line: Seq<char>) -> Option<Seq<char>> {
    let at = position(line, '#');
    if at < line.len() {
        Some(line.skip(at as int + 1))
    } else {
        None
    }
}

/// The group id that `token` writes: `token` is `qid:` followed by an
/// unsigned integer.
pub open spec fn qid_of(token: Seq<char>) -> Option<usize> {
    if token.len() >= 4 && token.take(4) == seq!['q', 'i', 'd', ':'] {
        usize_of(token.skip(4))
    } else {
        None
    }
}

/// The tokens of the line that come after the place of the target.
pub open spec fn after_target(line: Seq<char>) -> Seq<Seq<char>> {
    let words = tokens(data_part(line));
    if has_target(line) && words.len() > 0 {
        words.skip(1)
    } else {
        words
    }
}

/// The parts of `line`.
pub open spec fn fields(line: Seq<char>) -> Fields {
    let words = tokens(data_part(line));
    let rest = after_target(line);
    let qid = if rest.len() > 0 {
        qid_of(rest[0])
    } else {
        None
    };
    Fields {
        target: if !has_target(line) {
            Some(Seq::empty())
        } else if words.len() > 0 {
            Some(words[0])
        } else {
            None
        },
        qid,
        features: if qid is Some {
            rest.skip(1)
        } else {
            rest
        },
        comment: comment_part(line),
    }
}

/// Reads `token` as a group id.
pub fn parse_qid(token: &str) -> (r: Option<usize>)
    ensures
        r == qid_of(token@),
{
    let chars = to_chars(token);
    let n: usize = chars.len();
    if n >= 4 && chars[0] == 'q' && chars[1] == 'i' && chars[2] == 'd' && chars[3] == ':' {
        assert(chars@.take(4) == seq!['q', 'i', 'd', ':']);
        parse_unsigned(slice_subrange(chars.as_slice(), 4, n))
    } else {
        proof {
            let prefix = seq!['q', 'i', 'd', ':'];
            assert(prefix[0] == 'q' && prefix[1] == 'i' && prefix[2] == 'd' && prefix[3] == ':');
            if n >= 4 {
                let head = chars@.take(4);
                assert(head[0] == chars@[0] && head[1] == chars@[1] && head[2] == chars@[2]
                    && head[3] == chars@[3]);
            }
        }
        None
    }
}

} // verus!
