//! Feature containers, and the decoders that fill them from the feature
//! tokens of a line.

use crate::number::{parse_unsigned, usize_of};
use crate::scalar::{is_reader, is_zero, read, reads, zero};
use crate::text::{cut, split, to_chars, to_string};
use vstd::prelude::*;
use vstd::slice::slice_subrange;

verus! {

/// Sparse features: the dimension, the indices of the stored entries and
/// their values. The value at position `k` belongs to the index at
/// position `k`.
pub struct Sparse(pub usize, pub Vec<usize>, pub Vec<u32>);

/// The mathematical value of a [`Sparse`].
pub struct SparseView {
    pub dim: usize,
    pub indices: Seq<usize>,
    pub values: Seq<u32>,
}

/// The value listed last for `index`, or zero where `index` is not
/// listed.
pub open spec fn listed(indices: Seq<usize>, values: Seq<u32>, index: int) -> u32
    decreases indices.len(),
{
    if indices.len() == 0 {
        0
    } else if indices.last() == index {
        values[indices.len() - 1]
    } else {
        listed(indices.drop_last(), values, index)
    }
}

impl SparseView {
    /// The invariant of a sparse container: one value for each index,
    /// indices strictly increasing and below the dimension, no value zero.
    pub open spec fn wf(self) -> bool {
        &&& self.indices.len() == self.values.len()
        &&& forall|i: int, j: int|
            0 <= i < j < self.indices.len() ==> self.indices[i] < self.indices[j]
        &&& forall|i: int| 0 <= i < self.indices.len() ==> self.indices[i] < self.dim
        &&& forall|i: int| 0 <= i < self.values.len() ==> !is_zero(self.values[i])
    }

    /// Whether the container can be expanded: every index has a value and
    /// is below the dimension.
    pub open spec fn expandable(self) -> bool {
        &&& self.indices.len() <= self.values.len()
        &&& forall|i: int| 0 <= i < self.indices.len() ==> self.indices[i] < self.dim
    }

    /// The dense form: as long as the dimension, with the value of each
    /// listed index at its place and zero everywhere else.
    pub open spec fn dense(self) -> Seq<u32> {
        Seq::new(self.dim as nat, |i: int| listed(self.indices, self.values, i))
    }
}

impl View for Sparse {
    type V = SparseView;

    open spec fn view(&self) -> SparseView {
        SparseView { dim: self.0, indices: self.1@, values: self.2@ }
    }
}

impl DeepView for Sparse {
    type V = SparseView;

    open spec fn deep_view(&self) -> SparseView {
        self@
    }
}

impl Sparse {
    /// The dense form of the features.
    pub fn to_dense(&self) -> (v: Vec<u32>)
        requires
            self@.expandable(),
        ensures
            v@ == self@.dense(),
    {
        let mut v: Vec<u32> = vec![0u32; self.0];
        let mut k: usize = 0;
        assert(self.1@.take(0) == Seq::<usize>::empty());
        assert(v@ == Seq::new(self.0 as nat, |i: int| listed(self.1@.take(0), self.2@, i)));
        while k < self.1.len()
            invariant
                k <= self.1@.len(),
                self@.expandable(),
                v@ == Seq::new(self.0 as nat, |i: int| listed(self.1@.take(k as int), self.2@, i)),
            decreases self.1@.len() - k,
        {
            let index: usize = self.1[k];
            let ghost before = self.1@.take(k as int);
            let ghost after = self.1@.take(k + 1);
            assert(after.drop_last() == before);
            assert(after.last() == index);
            v[index] = self.2[k];
            assert(v@ == Seq::new(self.0 as nat, |i: int| listed(after, self.2@, i)));
            k += 1;
        }
        assert(self.1@.take(k as int) == self.1@);
        v
    }
}

/// A way to decode the feature tokens of a line.
pub trait DataParse {
    /// What the features are decoded to.
    type Out: DeepView;

    /// Whether this decoder can be used.
    spec fn wf(&self) -> bool;

    /// The features that `tokens` write, if they write any.
    spec fn decode(&self, tokens: Seq<Seq<char>>) -> Option<<Self::Out as DeepView>::V>;

    /// Decodes the feature tokens `xs`.
    fn parse(&self, xs: &[String]) -> (out: Option<Self::Out>)
        requires
            self.wf(),
        ensures
            out.deep_view() == self.decode(xs.deep_view()),
    ;
}

/// The text of a token that writes its value: what follows the last `:`,
/// or the whole token where it has none.
pub open spec fn value_text(token: Seq<char>) -> Seq<char> {
    split(token, ':').last()
}

/// Dense features: one value for each token, in the order of the tokens,
/// read by the reader that it holds.
pub struct DenseData<F>(pub F);

impl<F: Fn(&str) -> Option<u32>> DataParse for DenseData<F> {
    type Out = Vec<u32>;

    open spec fn wf(&self) -> bool {
        is_reader(self.0)
    }

    open spec fn decode(&self, tokens: Seq<Seq<char>>) -> Option<Seq<u32>> {
        if forall|i: int| 0 <= i < tokens.len() ==> reads(self.0, value_text(#[trigger] tokens[i])) is Some {
            Some(Seq::new(tokens.len(), |i: int| reads(self.0, value_text(tokens[i]))->0))
        } else {
            None
        }
    }

    fn parse(&self, xs: &[String]) -> (out: Option<Vec<u32>>) {
        let ghost tokens = xs.deep_view();
        let mut values: Vec<u32> = Vec::new();
        let mut k: usize = 0;
        while k < xs.len()
            invariant
                k <= xs@.len(),
                tokens == xs.deep_view(),
                is_reader(self.0),
                values@.len() == k,
                forall|i: int|
                    0 <= i < k ==> reads(self.0, value_text(#[trigger] tokens[i])) == Some(
                        values@[i],
                    ),
            decreases xs@.len() - k,
        {
            let chars = to_chars(xs[k].as_str());
            assert(chars@ == tokens[k as int]);
            let ranges = cut(chars.as_slice(), ':');
            let (a, b) = ranges[ranges.len() - 1];
            let text = to_string(slice_subrange(chars.as_slice(), a, b));
            match read(&self.0, text.as_str()) {
                Some(v) => {
                    values.push(v);
                },
                None => {
                    assert(reads(self.0, value_text(tokens[k as int])) is None);
                    return None;
                },
            }
            k += 1;
        }
        assert(values.deep_view() == Seq::new(
            tokens.len(),
            |i: int| reads(self.0, value_text(tokens[i]))->0,
        ));
        Some(values)
    }
}

/// The index and the value that a sparse token writes: its first and its
/// second piece between `:`. A token of one piece writes no pair, and
/// pieces after the second are not read.
pub open spec fn pair_of<F: Fn(&str) -> Option<u32>>(f: F, token: Seq<char>) -> Option<
    (usize, u32),
> {
    let parts = split(token, ':');
    if parts.len() < 2 {
        None
    } else {
        match (usize_of(parts[0]), reads(f, parts[1])) {
            (Some(index), Some(value)) => Some((index, value)),
            _ => None,
        }
    }
}

/// The value of the first of `pairs` that has the index `index`.
pub open spec fn first_value(pairs: Seq<(usize, u32)>, index: usize) -> Option<u32>
    decreases pairs.len(),
{
    if pairs.len() == 0 {
        None
    } else {
        match first_value(pairs.drop_last(), index) {
            Some(value) => Some(value),
            None => if pairs.last().0 == index {
                Some(pairs.last().1)
            } else {
                None
            },
        }
    }
}

/// The value that a container of dimension `dim` stores for `index`:
/// the first value that `pairs` give it, unless that value is zero or the
/// index is not below `dim`.
pub open spec fn kept(dim: usize, pairs: Seq<(usize, u32)>, index: usize) -> Option<u32> {
    match first_value(pairs, index) {
        Some(value) => if index < dim && !is_zero(value) {
            Some(value)
        } else {
            None
        },
        None => None,
    }
}

/// The indices below `n` for which a value is stored, in increasing
/// order.
pub open spec fn kept_below(dim: usize, pairs: Seq<(usize, u32)>, n: nat) -> Seq<usize>
    decreases n,
{
    if n == 0 {
        seq![]
    } else {
        let rest = kept_below(dim, pairs, (n - 1) as nat);
        if kept(dim, pairs, (n - 1) as usize) is Some {
            rest.push((n - 1) as usize)
        } else {
            rest
        }
    }
}

/// The sparse container of dimension `dim` that `pairs` give: the indices
/// for which a value is stored, in increasing order, each with its value.
pub open spec fn assemble(dim: usize, pairs: Seq<(usize, u32)>) -> SparseView {
    let indices = kept_below(dim, pairs, dim as nat);
    SparseView {
        dim,
        indices,
        values: Seq::new(indices.len(), |k: int| kept(dim, pairs, indices[k])->0),
    }
}

/// Whether `s` is strictly increasing.
pub open spec fn increasing(s: Seq<usize>) -> bool {
    forall|i: int, j: int| 0 <= i < j < s.len() ==> s[i] < s[j]
}

/// Whether the table of `keys` and `vals` holds, in increasing order of
/// index, the first value that `pairs` give to each index.
pub open spec fn tabulates(keys: Seq<usize>, vals: Seq<u32>, pairs: Seq<(usize, u32)>) -> bool {
    &&& keys.len() == vals.len()
    &&& increasing(keys)
    &&& forall|j: int| 0 <= j < keys.len() ==> first_value(pairs, #[trigger] keys[j]) == Some(vals[j])
    &&& forall|i: usize| (#[trigger] first_value(pairs, i)) is Some ==> keys.contains(i)
}

/// An increasing list of indices below `n` that holds exactly those for
/// which a value is stored is the list of `kept_below`.
pub proof fn lemma_kept_below_is(dim: usize, pairs: Seq<(usize, u32)>, n: nat, xs: Seq<usize>)
    requires
        n <= usize::MAX + 1,
        increasing(xs),
        forall|k: int| 0 <= k < xs.len() ==> #[trigger] xs[k] < n,
        forall|k: int| 0 <= k < xs.len() ==> kept(dim, pairs, #[trigger] xs[k]) is Some,
        forall|i: usize| i < n && (#[trigger] kept(dim, pairs, i)) is Some ==> xs.contains(i),
    ensures
        xs == kept_below(dim, pairs, n),
    decreases n,
{
    if n == 0 {
        assert(xs.len() == 0) by {
            if xs.len() > 0 {
                assert(xs[0] < n);
            }
        }
        assert(xs == Seq::<usize>::empty());
    } else {
        let top = (n - 1) as usize;
        if kept(dim, pairs, top) is Some {
            assert(xs.contains(top));
            let k = choose|k: int| 0 <= k < xs.len() && xs[k] == top;
            assert(k == xs.len() - 1) by {
                if k < xs.len() - 1 {
                    assert(xs[k] < xs[xs.len() - 1]);
                    assert(xs[xs.len() - 1] < n);
                }
            }
            let ys = xs.drop_last();
            assert forall|i: usize| i < n - 1 && (#[trigger] kept(dim, pairs, i)) is Some implies ys.contains(
                i,
            ) by {
                assert(xs.contains(i));
                let m = choose|m: int| 0 <= m < xs.len() && xs[m] == i;
                assert(ys[m] == i);
            }
            assert forall|m: int| 0 <= m < ys.len() implies #[trigger] ys[m] < n - 1 by {
                assert(xs[m] < xs[xs.len() - 1]);
            }
            assert forall|m: int| 0 <= m < ys.len() implies kept(dim, pairs, #[trigger] ys[m]) is Some by {
                assert(ys[m] == xs[m]);
            }
            lemma_kept_below_is(dim, pairs, (n - 1) as nat, ys);
            assert(xs == ys.push(top));
        } else {
            assert forall|m: int| 0 <= m < xs.len() implies #[trigger] xs[m] < n - 1 by {
                assert(kept(dim, pairs, xs[m]) is Some);
                assert(xs[m] < n);
            }
            lemma_kept_below_is(dim, pairs, (n - 1) as nat, xs);
        }
    }
}

/// Sparse features of a fixed dimension: the pairs of index and value that
/// the tokens write, ordered by index, the first pair alone kept for each
/// index, then without the pairs whose index is not below the dimension or
/// whose value is zero. Values are read by the reader that it holds.
pub struct SparseData<F>(pub usize, pub F);

impl<F: Fn(&str) -> Option<u32>> SparseData<F> {
    /// Reads the pair of index and value that `token` writes.
    fn pair(&self, token: &str) -> (r: Option<(usize, u32)>)
        requires
            is_reader(self.1),
        ensures
            r == pair_of(self.1, token@),
    {
        let chars = to_chars(token);
        let ranges = cut(chars.as_slice(), ':');
        if ranges.len() < 2 {
            return None;
        }
        let (a, b) = ranges[0];
        let (c, d) = ranges[1];
        let index = parse_unsigned(slice_subrange(chars.as_slice(), a, b));
        let text = to_string(slice_subrange(chars.as_slice(), c, d));
        let value = read(&self.1, text.as_str());
        match (index, value) {
            (Some(i), Some(v)) => Some((i, v)),
            _ => None,
        }
    }
}

/// Enters `value` for `index` in the table, unless the table has a value
/// for `index` already.
fn enter(
    keys: &mut Vec<usize>,
    vals: &mut Vec<u32>,
    index: usize,
    value: u32,
    Ghost(pairs): Ghost<Seq<(usize, u32)>>,
)
    requires
        tabulates(old(keys)@, old(vals)@, pairs),
    ensures
        tabulates(final(keys)@, final(vals)@, pairs.push((index, value))),
{
    let ghost more = pairs.push((index, value));
    assert(more.drop_last() == pairs);
    let mut p: usize = keys.len();
    while p > 0 && keys[p - 1] > index
        invariant
            p <= keys@.len(),
            forall|j: int| p <= j < keys@.len() ==> keys@[j] > index,
        decreases p,
    {
        p -= 1;
    }
    if p > 0 && keys[p - 1] == index {
        assert forall|i: usize| (#[trigger] first_value(more, i)) is Some implies keys@.contains(
            i,
        ) by {
            if first_value(pairs, i) is None {
                assert(keys@[p - 1] == i);
            }
        }
        return ;
    }
    let ghost old_keys = keys@;
    let ghost old_vals = vals@;
    assert(!old_keys.contains(index)) by {
        if old_keys.contains(index) {
            let j = choose|j: int| 0 <= j < old_keys.len() && old_keys[j] == index;
            if j < p {
                if j < p - 1 {
                    assert(old_keys[j] < old_keys[p - 1]);
                }
            }
        }
    }
    assert(first_value(pairs, index) is None);
    keys.insert(p, index);
    vals.insert(p, value);
    proof {
        assert forall|i: int, j: int| 0 <= i < j < keys@.len() implies keys@[i] < keys@[j] by {
            if j < p {
                assert(keys@[i] == old_keys[i] && keys@[j] == old_keys[j]);
            } else if j == p {
                assert(keys@[i] == old_keys[i]);
                if i < p - 1 {
                    assert(old_keys[i] < old_keys[p - 1]);
                }
            } else if i < p {
                assert(keys@[i] == old_keys[i] && keys@[j] == old_keys[j - 1]);
                if i < j - 1 {
                    assert(old_keys[i] < old_keys[j - 1]);
                }
            } else if i == p {
                assert(keys@[j] == old_keys[j - 1]);
            } else {
                assert(keys@[i] == old_keys[i - 1] && keys@[j] == old_keys[j - 1]);
            }
        }
        assert forall|j: int| 0 <= j < keys@.len() implies first_value(more, #[trigger] keys@[j])
            == Some(vals@[j]) by {
            if j < p {
                assert(keys@[j] == old_keys[j] && vals@[j] == old_vals[j]);
            } else if j > p {
                assert(keys@[j] == old_keys[j - 1] && vals@[j] == old_vals[j - 1]);
            }
        }
        assert forall|i: usize| (#[trigger] first_value(more, i)) is Some implies keys@.contains(
            i,
        ) by {
            if first_value(pairs, i) is Some {
                let j = choose|j: int| 0 <= j < old_keys.len() && old_keys[j] == i;
                if j < p {
                    assert(keys@[j] == i);
                } else {
                    assert(keys@[j + 1] == i);
                }
            } else {
                assert(keys@[p as int] == i);
            }
        }
    }
}

/// The sparse container of dimension `dim` with the entries of the table
/// whose index is below `dim` and whose value is not zero.
fn select(dim: usize, keys: &Vec<usize>, vals: &Vec<u32>, Ghost(pairs): Ghost<Seq<(usize, u32)>>) -> (s:
    Sparse)
    requires
        tabulates(keys@, vals@, pairs),
    ensures
        s@ == assemble(dim, pairs),
{
    let mut indices: Vec<usize> = Vec::new();
    let mut values: Vec<u32> = Vec::new();
    let mut t: usize = 0;
    while t < keys.len()
        invariant
            t <= keys@.len(),
            tabulates(keys@, vals@, pairs),
            indices@.len() == values@.len(),
            increasing(indices@),
            forall|m: int|
                0 <= m < indices@.len() ==> exists|u: int|
                    0 <= u < t && keys@[u] == #[trigger] indices@[m],
            forall|m: int|
                0 <= m < indices@.len() ==> kept(dim, pairs, #[trigger] indices@[m]) == Some(
                    values@[m],
                ),
            forall|u: int|
                0 <= u < t && kept(dim, pairs, #[trigger] keys@[u]) is Some ==> indices@.contains(
                    keys@[u],
                ),
        decreases keys@.len() - t,
    {
        let index: usize = keys[t];
        let value: u32 = vals[t];
        let ghost before = indices@;
        if index < dim && !zero(value) {
            indices.push(index);
            values.push(value);
            proof {
                assert forall|i: int, j: int| 0 <= i < j < indices@.len() implies indices@[i]
                    < indices@[j] by {
                    if j == indices@.len() - 1 {
                        let u = choose|u: int| 0 <= u < t && keys@[u] == before[i];
                        assert(keys@[u] < keys@[t as int]);
                    } else {
                        assert(before[i] < before[j]);
                    }
                }
                assert forall|m: int| 0 <= m < indices@.len() implies exists|u: int|
                    0 <= u < t + 1 && keys@[u] == #[trigger] indices@[m] by {
                    if m < before.len() {
                        let u = choose|u: int| 0 <= u < t && keys@[u] == before[m];
                        assert(keys@[u] == indices@[m]);
                    } else {
                        assert(keys@[t as int] == indices@[m]);
                    }
                }
                assert forall|u: int|
                    0 <= u < t + 1 && kept(dim, pairs, #[trigger] keys@[u]) is Some implies indices@.contains(
                    keys@[u],
                ) by {
                    if u < t {
                        let m = choose|m: int| 0 <= m < before.len() && before[m] == keys@[u];
                        assert(indices@[m] == keys@[u]);
                    } else {
                        assert(indices@[before.len() as int] == keys@[u]);
                    }
                }
            }
        }
        t += 1;
    }
    proof {
        assert forall|i: usize| i < dim && (#[trigger] kept(dim, pairs, i)) is Some implies indices@.contains(
            i,
        ) by {
            assert(first_value(pairs, i) is Some);
            let u = choose|u: int| 0 <= u < keys@.len() && keys@[u] == i;
            assert(kept(dim, pairs, keys@[u]) is Some);
        }
        lemma_kept_below_is(dim, pairs, dim as nat, indices@);
        assert(values@ == Seq::new(indices@.len(), |k: int| kept(dim, pairs, indices@[k])->0));
    }
    Sparse(dim, indices, values)
}

impl<F: Fn(&str) -> Option<u32>> DataParse for SparseData<F> {
    type Out = Sparse;

    open spec fn wf(&self) -> bool {
        is_reader(self.1)
    }

    open spec fn decode(&self, tokens: Seq<Seq<char>>) -> Option<SparseView> {
        if forall|i: int| 0 <= i < tokens.len() ==> pair_of(self.1, #[trigger] tokens[i]) is Some {
            Some(assemble(self.0, Seq::new(tokens.len(), |i: int| pair_of(self.1, tokens[i])->0)))
        } else {
            None
        }
    }

    fn parse(&self, xs: &[String]) -> (out: Option<Sparse>) {
        let ghost tokens = xs.deep_view();
        let ghost all = Seq::new(tokens.len(), |i: int| pair_of(self.1, tokens[i])->0);
        let mut keys: Vec<usize> = Vec::new();
        let mut vals: Vec<u32> = Vec::new();
        let mut k: usize = 0;
        assert(all.take(0) == Seq::<(usize, u32)>::empty());
        while k < xs.len()
            invariant
                k <= xs@.len(),
                tokens == xs.deep_view(),
                all == Seq::new(tokens.len(), |i: int| pair_of(self.1, tokens[i])->0),
                is_reader(self.1),
                forall|i: int| 0 <= i < k ==> pair_of(self.1, #[trigger] tokens[i]) is Some,
                tabulates(keys@, vals@, all.take(k as int)),
            decreases xs@.len() - k,
        {
            assert(xs[k as int]@ == tokens[k as int]);
            match self.pair(xs[k].as_str()) {
                Some((index, value)) => {
                    assert(all.take(k + 1) == all.take(k as int).push((index, value)));
                    enter(&mut keys, &mut vals, index, value, Ghost(all.take(k as int)));
                },
                None => {
                    return None;
                },
            }
            k += 1;
        }
        assert(all.take(k as int) == all);
        Some(select(self.0, &keys, &vals, Ghost(all)))
    }
}

/// A feature container that has a number of dimensions.
pub trait Dimension {
    /// How the number of dimensions is counted.
    type Out;

    /// The number of dimensions.
    spec fn dimension(&self) -> Self::Out;

    /// The number of dimensions.
    fn dims(&self) -> (n: Self::Out)
        ensures
            n == self.dimension(),
    ;
}

impl Dimension for Vec<u32> {
    type Out = usize;

    open spec fn dimension(&self) -> usize {
        self@.len() as usize
    }

    fn dims(&self) -> (n: usize) {
        self.len()
    }
}

impl Dimension for Sparse {
    type Out = usize;

    open spec fn dimension(&self) -> usize {
        self.0
    }

    fn dims(&self) -> (n: usize) {
        self.0
    }
}

} // verus!
