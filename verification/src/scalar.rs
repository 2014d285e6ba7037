//! Real-valued fields of a line.
//!
//! A real number is held as the bit pattern of an IEEE 754 single-precision
//! value. How text becomes such a pattern is not decided here: a decoder
//! that reads real numbers is given a *reader*, a function from text to an
//! optional bit pattern, and applies it to exactly the text that the format
//! assigns to a value.

use vstd::prelude::*;

verus! {

/// Whether the reader `f` may be applied to every text.
pub open spec fn total<F: Fn(&str) -> Option<u32>>(f: F) -> bool {
    forall|s: &str| call_requires(f, (s,))
}

/// Whether `r` is a result that the reader `f` can give for `text`.
pub open spec fn yields<F: Fn(&str) -> Option<u32>>(f: F, text: Seq<char>, r: Option<u32>) -> bool {
    exists|s: &str| s@ == text && #[trigger] call_ensures(f, (s,), r)
}

/// Whether the reader `f` is a function of the text alone: the same
/// characters always give the same result.
pub open spec fn single_valued<F: Fn(&str) -> Option<u32>>(f: F) -> bool {
    forall|s: &str, t: &str, a: Option<u32>, b: Option<u32>|
        s@ == t@ && #[trigger] call_ensures(f, (s,), a) && #[trigger] call_ensures(f, (t,), b)
            ==> a == b
}

/// A reader that a decoder can use: it accepts every text and is a
/// function of the text alone.
pub open spec fn is_reader<F: Fn(&str) -> Option<u32>>(f: F) -> bool {
    total(f) && single_valued(f)
}

/// The result of the reader `f` on `text`.
pub open spec fn reads<F: Fn(&str) -> Option<u32>>(f: F, text: Seq<char>) -> Option<u32> {
    choose|r: Option<u32>| yields(f, text, r)
}

/// Whether `bits` is a zero, positive or negative: every bit but the sign
/// is clear.
pub open spec fn is_zero(bits: u32) -> bool {
    bits == 0 || bits == 0x8000_0000
}

/// What a reader returned for a text is its result on that text.
pub proof fn lemma_reads<F: Fn(&str) -> Option<u32>>(f: F, s: &str, r: Option<u32>)
    requires
        single_valued(f),
        call_ensures(f, (s,), r),
    ensures
        reads(f, s@) == r,
{
    assert(yields(f, s@, r));
    let q = reads(f, s@);
    assert(yields(f, s@, q));
    let t = choose|t: &str| t@ == s@ && #[trigger] call_ensures(f, (t,), q);
    assert(call_ensures(f, (t,), q));
}

/// Applies the reader `f` to `text`.
pub fn read<F: Fn(&str) -> Option<u32>>(f: &F, text: &str) -> (r: Option<u32>)
    requires
        is_reader(*f),
    ensures
        r == reads(*f, text@),
{
    let r = f(text);
    proof {
        lemma_reads(*f, text, r);
    }
    r
}

/// Whether `bits` is a zero.
pub fn zero(bits: u32) -> (r: bool)
    ensures
        r == is_zero(bits),
{
    bits == 0 || bits == 0x8000_0000
}

} // verus!
