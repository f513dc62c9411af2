//! What the transforms compute, as layers of butterflies on sequences of integers.
//!
//! A forward layer with `m` groups takes each pair `(u, v)` that lies half a
//! group apart to `(u + r·v, u - r·v)`, where `r` is the root of the group.
//! An inverse layer takes `(u, v)` to `(u + v, (u - v)·s)`. The forward
//! transform applies the layers with 1, 2, 4, … groups; the inverse
//! transform applies them in the opposite order and divides by the length.

use vstd::arithmetic::power2::pow2;
use vstd::prelude::*;

verus! {

/// Every entry reduced modulo `p`.
pub open spec fn reduced(s: Seq<int>, p: int) -> Seq<int> {
    Seq::new(s.len(), |j: int| s[j] % p)
}

/// Every entry multiplied by `c`, modulo `p`.
pub open spec fn scaled(s: Seq<int>, c: int, p: int) -> Seq<int> {
    Seq::new(s.len(), |j: int| (c * s[j]) % p)
}

/// The entry `j` of a forward layer over groups of length `2·gap`: the root
/// of the group of `j` is `roots[m + k]`, where `k` is the number of the group.
pub open spec fn ct_entry(s: Seq<int>, m: int, gap: int, roots: Seq<int>, p: int, j: int) -> int {
    let k = j / (2 * gap);
    let t = j % (2 * gap);
    if t < gap {
        (s[j] + roots[m + k] * s[j + gap]) % p
    } else {
        (s[j - gap] - roots[m + k] * s[j]) % p
    }
}

/// One forward layer with `m` groups of length `2·gap`.
pub open spec fn ct_layer(s: Seq<int>, m: int, gap: int, roots: Seq<int>, p: int) -> Seq<int> {
    Seq::new(s.len(), |j: int| ct_entry(s, m, gap, roots, p, j))
}

/// The first `stages` layers of the forward transform of a sequence of length `2^log_n`.
pub open spec fn forward(s: Seq<int>, log_n: nat, stages: nat, roots: Seq<int>, p: int) -> Seq<int>
    decreases stages,
{
    if stages == 0 || stages > log_n {
        reduced(s, p)
    } else {
        ct_layer(
            forward(s, log_n, (stages - 1) as nat, roots, p),
            pow2((stages - 1) as nat) as int,
            pow2((log_n - stages) as nat) as int,
            roots,
            p,
        )
    }
}

/// The forward transform of a sequence of length `2^log_n`.
pub open spec fn ntt(s: Seq<int>, log_n: nat, roots: Seq<int>, p: int) -> Seq<int> {
    forward(s, log_n, log_n, roots, p)
}

/// The entry `j` of an inverse layer over groups of length `2·gap`: the root
/// of the group of `j` is `inv_roots[offset + k]`.
pub open spec fn gs_entry(
    s: Seq<int>,
    offset: int,
    gap: int,
    inv_roots: Seq<int>,
    p: int,
    j: int,
) -> int {
    let k = j / (2 * gap);
    let t = j % (2 * gap);
    if t < gap {
        (s[j] + s[j + gap]) % p
    } else {
        ((s[j - gap] - s[j]) * inv_roots[offset + k]) % p
    }
}

/// One inverse layer over groups of length `2·gap`.
pub open spec fn gs_layer(s: Seq<int>, offset: int, gap: int, inv_roots: Seq<int>, p: int) -> Seq<
    int,
> {
    Seq::new(s.len(), |j: int| gs_entry(s, offset, gap, inv_roots, p, j))
}

/// Where the roots of the inverse layer with gap `2^stage` begin: after the
/// roots of the layers before it, which take `2^(log_n-1) + … + 2^(log_n-stage)` places.
pub open spec fn inv_offset(log_n: nat, stage: nat) -> int {
    pow2(log_n) - pow2((log_n - stage) as nat) + 1
}

/// The first `stages` layers of the inverse transform of a sequence of length `2^log_n`.
pub open spec fn backward(s: Seq<int>, log_n: nat, stages: nat, inv_roots: Seq<int>, p: int) -> Seq<
    int,
>
    decreases stages,
{
    if stages == 0 || stages > log_n {
        reduced(s, p)
    } else {
        gs_layer(
            backward(s, log_n, (stages - 1) as nat, inv_roots, p),
            inv_offset(log_n, (stages - 1) as nat),
            pow2((stages - 1) as nat) as int,
            inv_roots,
            p,
        )
    }
}

/// The inverse transform of a sequence of length `2^log_n`: all the layers,
/// and the division by the length.
pub open spec fn intt(s: Seq<int>, log_n: nat, inv_roots: Seq<int>, inv_degree: int, p: int) -> Seq<
    int,
> {
    scaled(backward(s, log_n, log_n, inv_roots, p), inv_degree, p)
}

/// The layers of the forward transform keep the length.
pub proof fn lemma_forward_len(s: Seq<int>, log_n: nat, stages: nat, roots: Seq<int>, p: int)
    ensures
        forward(s, log_n, stages, roots, p).len() == s.len(),
    decreases stages,
{
    if stages == 0 || stages > log_n {
    } else {
        lemma_forward_len(s, log_n, (stages - 1) as nat, roots, p);
    }
}

/// The layers of the inverse transform keep the length.
pub proof fn lemma_backward_len(s: Seq<int>, log_n: nat, stages: nat, inv_roots: Seq<int>, p: int)
    ensures
        backward(s, log_n, stages, inv_roots, p).len() == s.len(),
    decreases stages,
{
    if stages == 0 || stages > log_n {
    } else {
        lemma_backward_len(s, log_n, (stages - 1) as nat, inv_roots, p);
    }
}

/// The product of two sequences, entry by entry, modulo `p`.
pub open spec fn hadamard(a: Seq<int>, b: Seq<int>, p: int) -> Seq<int> {
    Seq::new(a.len(), |j: int| (a[j] * b[j]) % p)
}

/// The inverse transform depends on the entries only modulo `p`.
pub proof fn lemma_intt_congruent(
    s: Seq<int>,
    s2: Seq<int>,
    log_n: nat,
    inv_roots: Seq<int>,
    inv_degree: int,
    p: int,
)
    requires
        s.len() == s2.len(),
        forall|j: int| 0 <= j < s.len() ==> #[trigger] s[j] % p == s2[j] % p,
    ensures
        intt(s, log_n, inv_roots, inv_degree, p) == intt(s2, log_n, inv_roots, inv_degree, p),
{
    lemma_backward_congruent(s, s2, log_n, log_n, inv_roots, p);
}

/// The layers of the inverse transform depend on the entries only modulo `p`.
pub proof fn lemma_backward_congruent(
    s: Seq<int>,
    s2: Seq<int>,
    log_n: nat,
    stages: nat,
    inv_roots: Seq<int>,
    p: int,
)
    requires
        s.len() == s2.len(),
        forall|j: int| 0 <= j < s.len() ==> #[trigger] s[j] % p == s2[j] % p,
    ensures
        backward(s, log_n, stages, inv_roots, p) == backward(s2, log_n, stages, inv_roots, p),
    decreases stages,
{
    if stages == 0 || stages > log_n {
        assert(reduced(s, p) =~= reduced(s2, p));
    } else {
        lemma_backward_congruent(s, s2, log_n, (stages - 1) as nat, inv_roots, p);
    }
}

} // verus!
