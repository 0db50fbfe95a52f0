//! Cycle-walking: restricting the Feistel bijection on its block domain to
//! the caller's range `[0, max)`.
//!
//! Repeatedly applying a bijection to a starting point walks a cycle that
//! returns to the start, so a walk that begins below `max` meets another
//! value below `max` within one domain's worth of steps. The first such
//! value is what `Permutor::forward` returns; walking the inverse bijection
//! from it retraces the same cycle and lands back on the start.

use vstd::prelude::*;
use vstd::relations::injective_on;
use vstd::set_lib::{lemma_int_range, lemma_len_subset, lemma_map_size, set_int_range};

use crate::feistel::{lemma_feistel_self_inverse, FeistelNetwork, Permutor};
use crate::masks::{lemma_le_full_mask, lemma_masked_le};

verus! {

/// The value after `n` applications of the Feistel permutation to `x`.
pub open spec fn orbit_fwd(net: FeistelNetwork, x: u128, n: nat) -> u128
    decreases n,
{
    if n == 0 {
        x
    } else {
        net.permute_spec(orbit_fwd(net, x, (n - 1) as nat))
    }
}

/// The value after `n` applications of the inverse permutation to `x`.
pub open spec fn orbit_bwd(net: FeistelNetwork, x: u128, n: nat) -> u128
    decreases n,
{
    if n == 0 {
        x
    } else {
        net.invert_spec(orbit_bwd(net, x, (n - 1) as nat))
    }
}

/// Number of values in the network's block domain.
pub open spec fn domain_size(net: FeistelNetwork) -> int {
    net.full_mask() as int + 1
}

/// `y` is the first value below `max` on the forward orbit of `x`, reached
/// after `j >= 1` steps.
pub open spec fn is_first_hit_fwd(
    net: FeistelNetwork,
    max: u128,
    x: u128,
    j: nat,
    y: u128,
) -> bool {
    &&& 1 <= j
    &&& y == orbit_fwd(net, x, j)
    &&& y < max
    &&& forall|m: nat| 1 <= m < j ==> orbit_fwd(net, x, m) >= max
}

/// `y` is the first value below `max` on the backward orbit of `x`.
pub open spec fn is_first_hit_bwd(
    net: FeistelNetwork,
    max: u128,
    x: u128,
    j: nat,
    y: u128,
) -> bool {
    &&& 1 <= j
    &&& y == orbit_bwd(net, x, j)
    &&& y < max
    &&& forall|m: nat| 1 <= m < j ==> orbit_bwd(net, x, m) >= max
}

/// Some step of the forward walk from `x` first lands on `y`.
pub open spec fn reaches_fwd(net: FeistelNetwork, max: u128, x: u128, y: u128) -> bool {
    exists|j: nat| is_first_hit_fwd(net, max, x, j, y)
}

/// Some step of the backward walk from `x` first lands on `y`.
pub open spec fn reaches_bwd(net: FeistelNetwork, max: u128, x: u128, y: u128) -> bool {
    exists|j: nat| is_first_hit_bwd(net, max, x, j, y)
}

/// What `Permutor::forward` returns: the first value below `max` on the
/// forward orbit of `x`.
pub open spec fn walk_fwd(net: FeistelNetwork, max: u128, x: u128) -> u128 {
    choose|y: u128| reaches_fwd(net, max, x, y)
}

/// What `Permutor::backward` returns: the first value below `max` on the
/// backward orbit of `x`.
pub open spec fn walk_bwd(net: FeistelNetwork, max: u128, x: u128) -> u128 {
    choose|y: u128| reaches_bwd(net, max, x, y)
}

/// A value at most the full mask lies in the block domain.
pub proof fn lemma_in_domain_le(net: FeistelNetwork, x: u128)
    requires
        net.wf(),
        x <= net.full_mask(),
    ensures
        net.in_domain(x),
{
    lemma_le_full_mask(x, net.half_width, net.right_mask, net.left_mask);
}

/// The forward orbit of an in-domain value stays in the domain.
pub proof fn lemma_orbit_fwd_in_domain(net: FeistelNetwork, x: u128, n: nat)
    requires
        net.wf(),
        net.in_domain(x),
    ensures
        net.in_domain(orbit_fwd(net, x, n)),
    decreases n,
{
    if n > 0 {
        lemma_orbit_fwd_in_domain(net, x, (n - 1) as nat);
        lemma_feistel_self_inverse(net, orbit_fwd(net, x, (n - 1) as nat));
    }
}

/// The backward orbit of an in-domain value stays in the domain.
pub proof fn lemma_orbit_bwd_in_domain(net: FeistelNetwork, x: u128, n: nat)
    requires
        net.wf(),
        net.in_domain(x),
    ensures
        net.in_domain(orbit_bwd(net, x, n)),
    decreases n,
{
    if n > 0 {
        lemma_orbit_bwd_in_domain(net, x, (n - 1) as nat);
        lemma_feistel_self_inverse(net, orbit_bwd(net, x, (n - 1) as nat));
    }
}

/// Pigeonhole: a map from `[0, m]` into `[0, m)` repeats a value.
proof fn lemma_range_map_repeats(f: spec_fn(int) -> int, m: int)
    requires
        m >= 1,
        forall|i: int| 0 <= i <= m ==> 0 <= #[trigger] f(i) < m,
    ensures
        exists|i: int, j: int| #![trigger f(i), f(j)] 0 <= i < j <= m && f(i) == f(j),
{
    if !(exists|i: int, j: int| #![trigger f(i), f(j)] 0 <= i < j <= m && f(i) == f(j)) {
        let dom = set_int_range(0, m + 1);
        lemma_int_range(0, m + 1);
        assert(injective_on(f, dom)) by {
            assert forall|x1: int, x2: int|
                dom.contains(x1) && dom.contains(x2) && #[trigger] f(x1) == #[trigger] f(
                    x2,
                ) implies x1 == x2 by {
                if x1 < x2 {
                    assert(0 <= x1 < x2 <= m && f(x1) == f(x2));
                }
                if x2 < x1 {
                    assert(0 <= x2 < x1 <= m && f(x2) == f(x1));
                }
            }
        }
        let img = dom.map(f);
        lemma_map_size(dom, img, f);
        assert(img.subset_of(set_int_range(0, m))) by {
            assert forall|v: int| img.contains(v) implies set_int_range(0, m).contains(v) by {
                let i = choose|i: int| dom.contains(i) && v == f(i);
                assert(0 <= f(i) < m);
            }
        }
        lemma_int_range(0, m);
        lemma_len_subset(img, set_int_range(0, m));
        assert(false);
    }
}

/// Two coincident points of the forward orbit pull back to the start: the
/// orbit is periodic with period `j - i`.
proof fn lemma_orbit_fwd_cancel(net: FeistelNetwork, x: u128, i: nat, j: nat)
    requires
        net.wf(),
        net.in_domain(x),
        i < j,
        orbit_fwd(net, x, i) == orbit_fwd(net, x, j),
    ensures
        orbit_fwd(net, x, (j - i) as nat) == x,
    decreases i,
{
    if i > 0 {
        lemma_orbit_fwd_in_domain(net, x, (i - 1) as nat);
        lemma_orbit_fwd_in_domain(net, x, (j - 1) as nat);
        lemma_feistel_self_inverse(net, orbit_fwd(net, x, (i - 1) as nat));
        lemma_feistel_self_inverse(net, orbit_fwd(net, x, (j - 1) as nat));
        lemma_orbit_fwd_cancel(net, x, (i - 1) as nat, (j - 1) as nat);
    }
}

/// Same, for the backward orbit.
proof fn lemma_orbit_bwd_cancel(net: FeistelNetwork, x: u128, i: nat, j: nat)
    requires
        net.wf(),
        net.in_domain(x),
        i < j,
        orbit_bwd(net, x, i) == orbit_bwd(net, x, j),
    ensures
        orbit_bwd(net, x, (j - i) as nat) == x,
    decreases i,
{
    if i > 0 {
        lemma_orbit_bwd_in_domain(net, x, (i - 1) as nat);
        lemma_orbit_bwd_in_domain(net, x, (j - 1) as nat);
        lemma_feistel_self_inverse(net, orbit_bwd(net, x, (i - 1) as nat));
        lemma_feistel_self_inverse(net, orbit_bwd(net, x, (j - 1) as nat));
        lemma_orbit_bwd_cancel(net, x, (i - 1) as nat, (j - 1) as nat);
    }
}

/// The forward orbit of an in-domain value returns to it within one domain's
/// worth of steps.
pub proof fn lemma_cycle_fwd(net: FeistelNetwork, x: u128)
    requires
        net.wf(),
        net.in_domain(x),
    ensures
        exists|c: nat| 1 <= c <= domain_size(net) && orbit_fwd(net, x, c) == x,
{
    let m = domain_size(net);
    let f = |i: int| orbit_fwd(net, x, i as nat) as int;
    assert forall|i: int| 0 <= i <= m implies 0 <= #[trigger] f(i) < m by {
        lemma_orbit_fwd_in_domain(net, x, i as nat);
        lemma_masked_le(orbit_fwd(net, x, i as nat), net.full_mask());
    }
    lemma_range_map_repeats(f, m);
    let (i, j) = choose|i: int, j: int| #![trigger f(i), f(j)] 0 <= i < j <= m && f(i) == f(j);
    lemma_orbit_fwd_cancel(net, x, i as nat, j as nat);
    let c = (j - i) as nat;
    assert(1 <= c <= domain_size(net) && orbit_fwd(net, x, c) == x);
}

/// Same, for the backward orbit.
pub proof fn lemma_cycle_bwd(net: FeistelNetwork, x: u128)
    requires
        net.wf(),
        net.in_domain(x),
    ensures
        exists|c: nat| 1 <= c <= domain_size(net) && orbit_bwd(net, x, c) == x,
{
    let m = domain_size(net);
    let f = |i: int| orbit_bwd(net, x, i as nat) as int;
    assert forall|i: int| 0 <= i <= m implies 0 <= #[trigger] f(i) < m by {
        lemma_orbit_bwd_in_domain(net, x, i as nat);
        lemma_masked_le(orbit_bwd(net, x, i as nat), net.full_mask());
    }
    lemma_range_map_repeats(f, m);
    let (i, j) = choose|i: int, j: int| #![trigger f(i), f(j)] 0 <= i < j <= m && f(i) == f(j);
    lemma_orbit_bwd_cancel(net, x, i as nat, j as nat);
    let c = (j - i) as nat;
    assert(1 <= c <= domain_size(net) && orbit_bwd(net, x, c) == x);
}

/// If some step of the forward orbit lands below `max`, a first such step
/// exists.
proof fn lemma_first_hit_fwd_from(net: FeistelNetwork, max: u128, x: u128, j: nat)
    requires
        1 <= j,
        orbit_fwd(net, x, j) < max,
    ensures
        exists|y: u128| reaches_fwd(net, max, x, y),
    decreases j,
{
    if forall|m: nat| 1 <= m < j ==> orbit_fwd(net, x, m) >= max {
        assert(is_first_hit_fwd(net, max, x, j, orbit_fwd(net, x, j)));
        assert(reaches_fwd(net, max, x, orbit_fwd(net, x, j)));
    } else {
        let m0 = choose|m: nat| 1 <= m < j && orbit_fwd(net, x, m) < max;
        lemma_first_hit_fwd_from(net, max, x, m0);
    }
}

/// Same, for the backward orbit.
proof fn lemma_first_hit_bwd_from(net: FeistelNetwork, max: u128, x: u128, j: nat)
    requires
        1 <= j,
        orbit_bwd(net, x, j) < max,
    ensures
        exists|y: u128| reaches_bwd(net, max, x, y),
    decreases j,
{
    if forall|m: nat| 1 <= m < j ==> orbit_bwd(net, x, m) >= max {
        assert(is_first_hit_bwd(net, max, x, j, orbit_bwd(net, x, j)));
        assert(reaches_bwd(net, max, x, orbit_bwd(net, x, j)));
    } else {
        let m0 = choose|m: nat| 1 <= m < j && orbit_bwd(net, x, m) < max;
        lemma_first_hit_bwd_from(net, max, x, m0);
    }
}

/// The first in-range value on the forward orbit is unique, and so is its
/// step count.
pub proof fn lemma_first_hit_fwd_unique(
    net: FeistelNetwork,
    max: u128,
    x: u128,
    j1: nat,
    y1: u128,
    j2: nat,
    y2: u128,
)
    requires
        is_first_hit_fwd(net, max, x, j1, y1),
        is_first_hit_fwd(net, max, x, j2, y2),
    ensures
        j1 == j2,
        y1 == y2,
{
    if j1 < j2 {
        assert(orbit_fwd(net, x, j1) >= max);
    }
    if j2 < j1 {
        assert(orbit_fwd(net, x, j2) >= max);
    }
}

/// Same, for the backward orbit.
pub proof fn lemma_first_hit_bwd_unique(
    net: FeistelNetwork,
    max: u128,
    x: u128,
    j1: nat,
    y1: u128,
    j2: nat,
    y2: u128,
)
    requires
        is_first_hit_bwd(net, max, x, j1, y1),
        is_first_hit_bwd(net, max, x, j2, y2),
    ensures
        j1 == j2,
        y1 == y2,
{
    if j1 < j2 {
        assert(orbit_bwd(net, x, j1) >= max);
    }
    if j2 < j1 {
        assert(orbit_bwd(net, x, j2) >= max);
    }
}

/// For a start below `max`, the forward walk is defined: it first hits a
/// value, that value is `walk_fwd`, and it lies below `max`.
pub proof fn lemma_walk_fwd_char(net: FeistelNetwork, max: u128, x: u128)
    requires
        net.wf(),
        1 <= max,
        max <= net.full_mask(),
        x < max,
    ensures
        reaches_fwd(net, max, x, walk_fwd(net, max, x)),
        walk_fwd(net, max, x) < max,
{
    lemma_in_domain_le(net, x);
    lemma_cycle_fwd(net, x);
    let c = choose|c: nat| 1 <= c <= domain_size(net) && orbit_fwd(net, x, c) == x;
    lemma_first_hit_fwd_from(net, max, x, c);
    let y0 = choose|y: u128| reaches_fwd(net, max, x, y);
    assert(reaches_fwd(net, max, x, y0));
    let j0 = choose|j: nat| is_first_hit_fwd(net, max, x, j, y0);
    assert(is_first_hit_fwd(net, max, x, j0, y0));
    assert(walk_fwd(net, max, x) == y0);
}

/// Same, for the backward walk.
pub proof fn lemma_walk_bwd_char(net: FeistelNetwork, max: u128, x: u128)
    requires
        net.wf(),
        1 <= max,
        max <= net.full_mask(),
        x < max,
    ensures
        reaches_bwd(net, max, x, walk_bwd(net, max, x)),
        walk_bwd(net, max, x) < max,
{
    lemma_in_domain_le(net, x);
    lemma_cycle_bwd(net, x);
    let c = choose|c: nat| 1 <= c <= domain_size(net) && orbit_bwd(net, x, c) == x;
    lemma_first_hit_bwd_from(net, max, x, c);
    let y0 = choose|y: u128| reaches_bwd(net, max, x, y);
    assert(reaches_bwd(net, max, x, y0));
    let j0 = choose|j: nat| is_first_hit_bwd(net, max, x, j, y0);
    assert(is_first_hit_bwd(net, max, x, j0, y0));
    assert(walk_bwd(net, max, x) == y0);
}

/// Walking backward from the `j`-th forward-orbit point retraces the forward
/// orbit.
proof fn lemma_orbit_bwd_of_fwd(net: FeistelNetwork, x: u128, j: nat, m: nat)
    requires
        net.wf(),
        net.in_domain(x),
        m <= j,
    ensures
        orbit_bwd(net, orbit_fwd(net, x, j), m) == orbit_fwd(net, x, (j - m) as nat),
    decreases m,
{
    if m > 0 {
        lemma_orbit_bwd_of_fwd(net, x, j, (m - 1) as nat);
        lemma_orbit_fwd_in_domain(net, x, (j - m) as nat);
        lemma_feistel_self_inverse(net, orbit_fwd(net, x, (j - m) as nat));
    }
}

/// Walking forward from the `j`-th backward-orbit point retraces the
/// backward orbit.
proof fn lemma_orbit_fwd_of_bwd(net: FeistelNetwork, x: u128, j: nat, m: nat)
    requires
        net.wf(),
        net.in_domain(x),
        m <= j,
    ensures
        orbit_fwd(net, orbit_bwd(net, x, j), m) == orbit_bwd(net, x, (j - m) as nat),
    decreases m,
{
    if m > 0 {
        lemma_orbit_fwd_of_bwd(net, x, j, (m - 1) as nat);
        lemma_orbit_bwd_in_domain(net, x, (j - m) as nat);
        lemma_feistel_self_inverse(net, orbit_bwd(net, x, (j - m) as nat));
    }
}

/// Round trip: the backward walk undoes the forward walk on `[0, max)`.
pub proof fn lemma_backward_of_forward(net: FeistelNetwork, max: u128, k: u128)
    requires
        net.wf(),
        1 <= max,
        max <= net.full_mask(),
        k < max,
    ensures
        walk_bwd(net, max, walk_fwd(net, max, k)) == k,
{
    lemma_walk_fwd_char(net, max, k);
    lemma_in_domain_le(net, k);
    let y = walk_fwd(net, max, k);
    let j = choose|j: nat| is_first_hit_fwd(net, max, k, j, y);
    assert forall|m: nat| 1 <= m < j implies orbit_bwd(net, y, m) >= max by {
        lemma_orbit_bwd_of_fwd(net, k, j, m);
    }
    lemma_orbit_bwd_of_fwd(net, k, j, j);
    assert(is_first_hit_bwd(net, max, y, j, k));
    assert(reaches_bwd(net, max, y, k));
    let k2 = walk_bwd(net, max, y);
    assert(reaches_bwd(net, max, y, k2));
    let j2 = choose|j2: nat| is_first_hit_bwd(net, max, y, j2, k2);
    lemma_first_hit_bwd_unique(net, max, y, j, k, j2, k2);
}

/// Round trip: the forward walk undoes the backward walk on `[0, max)`.
pub proof fn lemma_forward_of_backward(net: FeistelNetwork, max: u128, v: u128)
    requires
        net.wf(),
        1 <= max,
        max <= net.full_mask(),
        v < max,
    ensures
        walk_fwd(net, max, walk_bwd(net, max, v)) == v,
{
    lemma_walk_bwd_char(net, max, v);
    lemma_in_domain_le(net, v);
    let y = walk_bwd(net, max, v);
    let j = choose|j: nat| is_first_hit_bwd(net, max, v, j, y);
    assert forall|m: nat| 1 <= m < j implies orbit_fwd(net, y, m) >= max by {
        lemma_orbit_fwd_of_bwd(net, v, j, m);
    }
    lemma_orbit_fwd_of_bwd(net, v, j, j);
    assert(is_first_hit_fwd(net, max, y, j, v));
    assert(reaches_fwd(net, max, y, v));
    let v2 = walk_fwd(net, max, y);
    assert(reaches_fwd(net, max, y, v2));
    let j2 = choose|j2: nat| is_first_hit_fwd(net, max, y, j2, v2);
    lemma_first_hit_fwd_unique(net, max, y, j, v, j2, v2);
}

/// The forward walk is a bijection on `[0, max)`: bounded, injective and
/// surjective, so the values `walk_fwd(net, max, k)` for `k` in `[0, max)`
/// are exactly `[0, max)`, each taken once.
pub proof fn lemma_forward_bijection(net: FeistelNetwork, max: u128)
    requires
        net.wf(),
        1 <= max,
        max <= net.full_mask(),
    ensures
        forall|k: u128| k < max ==> #[trigger] walk_fwd(net, max, k) < max,
        forall|k1: u128, k2: u128|
            k1 < max && k2 < max && #[trigger] walk_fwd(net, max, k1) == #[trigger] walk_fwd(
                net,
                max,
                k2,
            ) ==> k1 == k2,
        forall|v: u128|
            v < max ==> #[trigger] walk_bwd(net, max, v) < max && walk_fwd(net, max,
                walk_bwd(net, max, v)) == v,
{
    assert forall|k: u128| k < max implies #[trigger] walk_fwd(net, max, k) < max by {
        lemma_walk_fwd_char(net, max, k);
    }
    assert forall|k1: u128, k2: u128|
        k1 < max && k2 < max && #[trigger] walk_fwd(net, max, k1) == #[trigger] walk_fwd(
            net,
            max,
            k2,
        ) implies k1 == k2 by {
        lemma_backward_of_forward(net, max, k1);
        lemma_backward_of_forward(net, max, k2);
    }
    assert forall|v: u128| v < max implies #[trigger] walk_bwd(net, max, v) < max && walk_fwd(
        net,
        max,
        walk_bwd(net, max, v),
    ) == v by {
        lemma_walk_bwd_char(net, max, v);
        lemma_forward_of_backward(net, max, v);
    }
}

/// Two networks with the same masks, key bytes and round count.
pub open spec fn same_network(a: FeistelNetwork, b: FeistelNetwork) -> bool {
    &&& a.half_width == b.half_width
    &&& a.right_mask == b.right_mask
    &&& a.left_mask == b.left_mask
    &&& a.key_bytes() == b.key_bytes()
    &&& a.spec_rounds() == b.spec_rounds()
}

/// Equal parameters give equal orbits.
proof fn lemma_orbit_fwd_same(a: FeistelNetwork, b: FeistelNetwork, x: u128, n: nat)
    requires
        same_network(a, b),
    ensures
        orbit_fwd(a, x, n) == orbit_fwd(b, x, n),
    decreases n,
{
    if n > 0 {
        lemma_orbit_fwd_same(a, b, x, (n - 1) as nat);
    }
}

/// Determinism: two networks built from the same capacity and the same key
/// bytes walk every index to the same value, so two `Permutor`s with equal
/// parameters yield byte-for-byte identical sequences.
pub proof fn lemma_determinism(a: FeistelNetwork, b: FeistelNetwork, max: u128, k: u128)
    requires
        same_network(a, b),
        a.wf(),
        1 <= max,
        max <= a.full_mask(),
        k < max,
    ensures
        walk_fwd(a, max, k) == walk_fwd(b, max, k),
{
    lemma_walk_fwd_char(a, max, k);
    lemma_walk_fwd_char(b, max, k);
    let ya = walk_fwd(a, max, k);
    let yb = walk_fwd(b, max, k);
    let ja = choose|j: nat| is_first_hit_fwd(a, max, k, j, ya);
    let jb = choose|j: nat| is_first_hit_fwd(b, max, k, j, yb);
    lemma_orbit_fwd_same(a, b, k, jb);
    assert forall|m: nat| 1 <= m < jb implies orbit_fwd(a, k, m) >= max by {
        lemma_orbit_fwd_same(a, b, k, m);
    }
    assert(is_first_hit_fwd(a, max, k, jb, yb));
    lemma_first_hit_fwd_unique(a, max, k, ja, ya, jb, yb);
}

/// Round trips stated for a well-formed `Permutor`: `backward` after
/// `forward` and `forward` after `backward` are the identity on `[0, max)`.
pub proof fn lemma_permutor_roundtrip(p: Permutor, k: u128)
    requires
        p.valid(),
        k < p.max,
    ensures
        walk_bwd(p.feistel, p.max, walk_fwd(p.feistel, p.max, k)) == k,
        walk_fwd(p.feistel, p.max, walk_bwd(p.feistel, p.max, k)) == k,
{
    lemma_backward_of_forward(p.feistel, p.max, k);
    lemma_forward_of_backward(p.feistel, p.max, k);
}

/// Bijection stated for a well-formed `Permutor`: `forward` maps `[0, max)`
/// onto `[0, max)` with no repeats.
pub proof fn lemma_permutor_bijection(p: Permutor)
    requires
        p.valid(),
    ensures
        forall|k: u128| k < p.max ==> #[trigger] walk_fwd(p.feistel, p.max, k) < p.max,
        forall|k1: u128, k2: u128|
            k1 < p.max && k2 < p.max && #[trigger] walk_fwd(p.feistel, p.max, k1)
                == #[trigger] walk_fwd(p.feistel, p.max, k2) ==> k1 == k2,
        forall|v: u128|
            v < p.max ==> #[trigger] walk_bwd(p.feistel, p.max, v) < p.max && walk_fwd(p.feistel,
                p.max, walk_bwd(p.feistel, p.max, v)) == v,
{
    lemma_forward_bijection(p.feistel, p.max);
}

} // verus!
