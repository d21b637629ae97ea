//! The decisions of the training loop that do not touch a cell: the order in
//! which samples are visited, when an accumulated batch is applied, the shapes of
//! the layers, and how many predictions hit their label.

use crate::back_index::{forward_position, Side};
use rand::seq::SliceRandom;
use vstd::prelude::*;

verus! {

broadcast use vstd::seq_lib::group_to_multiset_ensures;

/// The positions `0 .. n` in order.
pub open spec fn identity_order(n: nat) -> Seq<usize> {
    Seq::new(n, |i: int| i as usize)
}

/// `s` visits each of the positions `0 .. n` exactly once.
pub open spec fn is_order(s: Seq<usize>, n: nat) -> bool {
    s.to_multiset() == identity_order(n).to_multiset()
}

/// The positions of `n` samples in storage order.
pub fn traversal_order(n: usize) -> (r: Vec<usize>)
    ensures
        r@ == identity_order(n as nat),
{
    let mut r: Vec<usize> = Vec::with_capacity(n);
    let mut k: usize = 0;
    while k < n
        invariant
            k <= n,
            r@ == identity_order(k as nat),
        decreases n - k,
    {
        r.push(k);
        k = k + 1;
        assert(r@ =~= identity_order(k as nat));
    }
    r
}

/// Relies on rand's `SliceRandom::shuffle`, driven by `rand::thread_rng()`: it
/// only swaps elements, so the same elements stay, in an order left to chance.
#[verifier::external_body]
fn shuffle_order(v: &mut Vec<usize>)
    ensures
        final(v)@.to_multiset() == old(v)@.to_multiset(),
{
    v.shuffle(&mut rand::thread_rng());
}

/// Prepares the visiting order of an epoch: shuffled when `shuffle` is set, else
/// left as it is. The samples themselves are never moved; an order of `n`
/// samples stays one, and each of its positions names a sample.
pub fn reorder(order: &mut Vec<usize>, shuffle: bool)
    ensures
        final(order)@.to_multiset() == old(order)@.to_multiset(),
        final(order)@.len() == old(order)@.len(),
        !shuffle ==> final(order)@ == old(order)@,
        forall|n: nat|
            is_order(old(order)@, n) ==> is_order(final(order)@, n) && forall|k: int|
                0 <= k < final(order)@.len() ==> #[trigger] final(order)@[k] < n,
{
    if shuffle {
        shuffle_order(order);
    }
    proof {
        assert(final(order)@.to_multiset().len() == old(order)@.to_multiset().len());
        assert forall|n: nat| is_order(old(order)@, n) implies is_order(final(order)@, n)
            && forall|k: int|
            0 <= k < final(order)@.len() ==> #[trigger] final(order)@[k] < n by {
            assert forall|k: int| 0 <= k < final(order)@.len() implies #[trigger] final(order)@[k]
                < n by {
                let x = final(order)@[k];
                assert(final(order)@.contains(x));
                assert(identity_order(n).to_multiset().count(x) > 0);
                assert(identity_order(n).contains(x));
            }
        }
    }
}

/// One step of the batch counter: a sample was accumulated, `count` samples were
/// pending before it, and `last` says whether it ends the epoch. The batch is
/// applied, and the counter reset, when it reaches `size` samples or the epoch
/// ends; the result is the counter after the step and the size of the batch
/// applied, if one was.
pub open spec fn batch_step(size: nat, count: nat, last: bool) -> (nat, Option<nat>) {
    if count + 1 == size || last {
        (0, Some((count + 1) as nat))
    } else {
        ((count + 1) as nat, None)
    }
}

/// Counts the samples accumulated since the last applied batch.
#[derive(Clone, Copy, Debug)]
pub struct Batcher {
    size: usize,
    count: usize,
}

impl Batcher {
    /// The number of samples in a full batch.
    pub closed spec fn size_spec(&self) -> nat {
        self.size as nat
    }

    /// The number of samples accumulated and not applied yet.
    pub closed spec fn count_spec(&self) -> nat {
        self.count as nat
    }

    /// Fewer samples are pending than a full batch holds.
    pub open spec fn wf(&self) -> bool {
        self.count_spec() < self.size_spec()
    }

    /// A counter for batches of `size` samples, with none pending.
    pub fn new(size: usize) -> (r: Batcher)
        requires
            size >= 1,
        ensures
            r.wf(),
            r.size_spec() == size,
            r.count_spec() == 0,
    {
        Batcher { size, count: 0 }
    }

    /// Records one accumulated sample; `last` says whether it ends the epoch.
    /// Returns the number of samples in the batch to apply now, if it is time.
    pub fn record(&mut self, last: bool) -> (r: Option<usize>)
        requires
            old(self).wf(),
        ensures
            final(self).wf(),
            final(self).size_spec() == old(self).size_spec(),
            final(self).count_spec() == batch_step(
                old(self).size_spec(),
                old(self).count_spec(),
                last,
            ).0,
            batch_step(old(self).size_spec(), old(self).count_spec(), last).1 == match r {
                Some(c) => Some(c as nat),
                None => None::<nat>,
            },
    {
        self.count = self.count + 1;
        if self.count == self.size || last {
            let c = self.count;
            self.count = 0;
            Some(c)
        } else {
            None
        }
    }
}

/// The number of samples applied over `left` more steps from a counter at
/// `count`, the last of them ending the epoch.
pub open spec fn applied_over(size: nat, count: nat, left: nat) -> nat
    decreases left,
{
    if left == 0 {
        0
    } else {
        let (next, applied) = batch_step(size, count, left == 1);
        let here: nat = match applied {
            Some(c) => c,
            None => 0,
        };
        here + applied_over(size, next, (left - 1) as nat)
    }
}

/// The counter after `left` more steps from `count`, the last ending the epoch.
pub open spec fn count_after(size: nat, count: nat, left: nat) -> nat
    decreases left,
{
    if left == 0 {
        count
    } else {
        count_after(size, batch_step(size, count, left == 1).0, (left - 1) as nat)
    }
}

/// Over an epoch every accumulated sample is applied in exactly one batch, the
/// last and possibly short batch included, and the counter ends at zero.
pub proof fn lemma_epoch_applies_every_sample(size: nat, count: nat, left: nat)
    requires
        count < size,
        left >= 1,
    ensures
        applied_over(size, count, left) == count + left,
        count_after(size, count, left) == 0,
    decreases left,
{
    reveal_with_fuel(applied_over, 2);
    reveal_with_fuel(count_after, 2);
    if left > 1 {
        let next = batch_step(size, count, false).0;
        lemma_epoch_applies_every_sample(size, next, (left - 1) as nat);
    }
}

/// The `(n_out, n_in)` weight shapes of the layers between consecutive widths.
pub open spec fn layer_shapes_spec(form: Seq<usize>) -> Seq<(usize, usize)> {
    Seq::new(
        if form.len() == 0 {
            0
        } else {
            (form.len() - 1) as nat
        },
        |l: int| (form[l + 1], form[l]),
    )
}

/// The weight shapes `(n_out, n_in)` of the layers of a network whose layer
/// widths, input first, are `form`.
pub fn layer_shapes(form: &Vec<usize>) -> (r: Vec<(usize, usize)>)
    ensures
        r@ == layer_shapes_spec(form@),
{
    let mut r: Vec<(usize, usize)> = Vec::new();
    if form.len() == 0 {
        assert(r@ =~= layer_shapes_spec(form@));
        return r;
    }
    let mut l: usize = 0;
    while l + 1 < form.len()
        invariant
            form.len() >= 1,
            l + 1 <= form.len(),
            r@ == layer_shapes_spec(form@).subrange(0, l as int),
        decreases form.len() - l,
    {
        r.push((form[l + 1], form[l]));
        l = l + 1;
        assert(r@ =~= layer_shapes_spec(form@).subrange(0, l as int));
    }
    assert(r@ =~= layer_shapes_spec(form@));
    r
}

/// The layers form a chain: there is one fewer layer than widths, each layer
/// reads the width before it and writes the width after it, so each layer reads
/// what the one before it writes.
pub proof fn lemma_layers_chain(form: Seq<usize>)
    requires
        form.len() >= 1,
    ensures
        layer_shapes_spec(form).len() + 1 == form.len(),
        forall|l: int|
            0 <= l < layer_shapes_spec(form).len() ==> (#[trigger] layer_shapes_spec(form)[l]).1
                == form[l] && layer_shapes_spec(form)[l].0 == form[l + 1],
        forall|l: int|
            0 <= l < layer_shapes_spec(form).len() - 1 ==> (#[trigger] layer_shapes_spec(form)[l
                + 1]).1 == layer_shapes_spec(form)[l].0,
{
}

/// The number of positions where `a` and `b` agree.
pub open spec fn matches_spec(a: Seq<(usize, usize)>, b: Seq<(usize, usize)>) -> nat
    decreases a.len(),
{
    if a.len() == 0 {
        0
    } else {
        matches_spec(a.drop_last(), b) + if a.last() == b[a.len() - 1] {
            1nat
        } else {
            0nat
        }
    }
}

/// The number of predicted classes that equal their label's class, position by
/// position.
pub fn count_matches(predicted: &Vec<(usize, usize)>, expected: &Vec<(usize, usize)>) -> (r: usize)
    requires
        predicted.len() == expected.len(),
    ensures
        r == matches_spec(predicted@, expected@),
{
    let mut r: usize = 0;
    let mut k: usize = 0;
    while k < predicted.len()
        invariant
            predicted.len() == expected.len(),
            k <= predicted.len(),
            r == matches_spec(predicted@.subrange(0, k as int), expected@),
            r <= k,
        decreases predicted.len() - k,
    {
        assert(predicted@.subrange(0, k as int + 1).drop_last() =~= predicted@.subrange(
            0,
            k as int,
        ));
        if predicted[k].0 == expected[k].0 && predicted[k].1 == expected[k].1 {
            r = r + 1;
        }
        k = k + 1;
    }
    assert(predicted@.subrange(0, k as int) =~= predicted@);
    r
}

/// Every prediction hits its label exactly when the count is the number of
/// samples, and every one misses exactly when the count is zero.
pub proof fn lemma_matches_all_or_none(a: Seq<(usize, usize)>, b: Seq<(usize, usize)>)
    requires
        a.len() == b.len(),
    ensures
        matches_spec(a, b) <= a.len(),
        (forall|k: int| 0 <= k < a.len() ==> a[k] == b[k]) <==> matches_spec(a, b) == a.len(),
        (forall|k: int| 0 <= k < a.len() ==> a[k] != b[k]) <==> matches_spec(a, b) == 0,
    decreases a.len(),
{
    if a.len() > 0 {
        let n = a.len() - 1;
        let b0 = b.subrange(0, n as int);
        lemma_matches_prefix(a.drop_last(), b, b0);
        lemma_matches_all_or_none(a.drop_last(), b0);
        if matches_spec(a, b) == a.len() {
            assert forall|k: int| 0 <= k < a.len() implies a[k] == b[k] by {
                if k < n {
                    assert(a.drop_last()[k] == b0[k]);
                }
            }
        }
        if matches_spec(a, b) == 0 {
            assert forall|k: int| 0 <= k < a.len() implies a[k] != b[k] by {
                if k < n {
                    assert(a.drop_last()[k] == a[k]);
                }
            }
        }
        if forall|k: int| 0 <= k < a.len() ==> a[k] == b[k] {
            assert forall|k: int| 0 <= k < n implies a.drop_last()[k] == b0[k] by {
                assert(a[k] == b[k]);
            }
        }
        if forall|k: int| 0 <= k < a.len() ==> a[k] != b[k] {
            assert forall|k: int| 0 <= k < n implies a.drop_last()[k] != b0[k] by {
                assert(a[k] != b[k]);
            }
        }
    }
}

/// The count over `a` looks only at the first `a.len()` labels.
proof fn lemma_matches_prefix(a: Seq<(usize, usize)>, b: Seq<(usize, usize)>, b0: Seq<(usize, usize)>)
    requires
        a.len() <= b0.len() <= b.len(),
        b0 == b.subrange(0, b0.len() as int),
    ensures
        matches_spec(a, b) == matches_spec(a, b0),
    decreases a.len(),
{
    if a.len() > 0 {
        lemma_matches_prefix(a.drop_last(), b, b0);
    }
}

/// One step of the backward pass over a stack of layers: the layer whose weight
/// error is computed, the activation it reads (the input of that layer), and the
/// layer before it that receives the propagated gradient, if there is one.
#[derive(Clone, Copy, Debug, PartialEq, Eq)]
pub struct BackStep {
    pub layer: usize,
    pub input: usize,
    pub prev: Option<usize>,
}

/// Step `l` of the backward pass over `n` layers and `n + 1` activations: the
/// `l`-th layer from the end, the `l + 1`-th activation from the end, and the
/// layer just before, unless the step reaches the first layer.
pub open spec fn back_step_spec(n: nat, l: int) -> BackStep {
    BackStep {
        layer: forward_position(l, n as int) as usize,
        input: forward_position(l + 1, n + 1 as int) as usize,
        prev: if l < n - 1 {
            Some(forward_position(l + 1, n as int) as usize)
        } else {
            None
        },
    }
}

/// The steps of the backward pass over `n_layers` layers, last layer first. Each
/// step reads the activation that feeds its layer and hands its gradient to the
/// layer that the next step treats.
pub fn backward_plan(n_layers: usize) -> (r: Vec<BackStep>)
    requires
        n_layers < usize::MAX,
    ensures
        r.len() == n_layers,
        forall|l: int| 0 <= l < n_layers ==> #[trigger] r[l] == back_step_spec(n_layers as nat, l),
        forall|l: int|
            0 <= l < n_layers ==> r[l].layer == n_layers - 1 - l && #[trigger] r[l].input
                == r[l].layer,
        forall|l: int| 0 <= l < n_layers - 1 ==> #[trigger] r[l].prev == Some(r[l + 1].layer),
        n_layers > 0 ==> r[n_layers - 1].prev is None,
{
    let mut r: Vec<BackStep> = Vec::with_capacity(n_layers);
    let mut l: usize = 0;
    while l < n_layers
        invariant
            n_layers < usize::MAX,
            l <= n_layers,
            r.len() == l,
            forall|k: int| 0 <= k < l ==> #[trigger] r[k] == back_step_spec(n_layers as nat, k),
        decreases n_layers - l,
    {
        let layer = Side::Rev(l).to_index(n_layers);
        let input = Side::Rev(l + 1).to_index(n_layers + 1);
        let prev = if l + 1 < n_layers {
            Some(Side::Rev(l + 1).to_index(n_layers))
        } else {
            None
        };
        r.push(BackStep { layer, input, prev });
        l = l + 1;
    }
    r
}

} // verus!
