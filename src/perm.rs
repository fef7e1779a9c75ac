use vstd::prelude::*;

verus! {

/// `m` is a permutation of the positions `0..26`.
pub open spec fn is_perm(m: Seq<usize>) -> bool {
    &&& m.len() == 26
    &&& forall|i: int| 0 <= i < 26 ==> #[trigger] m[i] < 26
    &&& forall|i: int, k: int| 0 <= i < 26 && 0 <= k < 26 && i != k ==> m[i] != m[k]
    &&& forall|j: int| 0 <= j < 26 ==> #[trigger] hits(m, j)
}

/// Some position of `m` holds `j`.
pub open spec fn hits(m: Seq<usize>, j: int) -> bool {
    exists|i: int| 0 <= i < 26 && #[trigger] m[i] == j
}

/// `inv` undoes `m` and `m` undoes `inv`, both on `0..26`.
pub open spec fn is_inverse(m: Seq<usize>, inv: Seq<usize>) -> bool {
    &&& m.len() == 26
    &&& inv.len() == 26
    &&& forall|i: int| 0 <= i < 26 ==> #[trigger] m[i] < 26
    &&& forall|i: int| 0 <= i < 26 ==> #[trigger] inv[i] < 26
    &&& forall|i: int| 0 <= i < 26 ==> #[trigger] inv[m[i] as int] == i
    &&& forall|j: int| 0 <= j < 26 ==> #[trigger] m[inv[j] as int] == j
}

/// `m` maps `0..26` into itself and undoes itself.
pub open spec fn is_involution(m: Seq<usize>) -> bool {
    &&& m.len() == 26
    &&& forall|i: int| 0 <= i < 26 ==> #[trigger] m[i] < 26
    &&& forall|i: int| 0 <= i < 26 ==> #[trigger] m[m[i] as int] == i
}

/// No position of `m` holds itself.
pub open spec fn no_fixed_point(m: Seq<usize>) -> bool {
    forall|i: int| 0 <= i < 26 ==> #[trigger] m[i] != i
}

/// A sequence with an inverse is a permutation.
pub proof fn lemma_inverse_is_perm(m: Seq<usize>, inv: Seq<usize>)
    requires
        is_inverse(m, inv),
    ensures
        is_perm(m),
{
    assert forall|j: int| 0 <= j < 26 implies #[trigger] hits(m, j) by {
        assert(m[inv[j] as int] == j);
    }
    assert forall|i: int, k: int| 0 <= i < 26 && 0 <= k < 26 && i != k implies m[i] != m[k] by {
        assert(inv[m[i] as int] == i && inv[m[k] as int] == k);
    }
}

/// A permutation has only one inverse.
pub proof fn lemma_inverse_unique(m: Seq<usize>, a: Seq<usize>, b: Seq<usize>)
    requires
        is_inverse(m, a),
        is_inverse(m, b),
    ensures
        a == b,
{
    assert forall|j: int| 0 <= j < 26 implies a[j] == b[j] by {
        assert(a[m[b[j] as int] as int] == b[j]);
    }
    assert(a =~= b);
}

/// Builds the inverse of a permutation of `0..26`.
pub fn invert(m: &Vec<usize>) -> (inv: Vec<usize>)
    requires
        is_perm(m@),
    ensures
        is_inverse(m@, inv@),
{
    let mut inv: Vec<usize> = vec![0usize; 26];
    let mut i: usize = 0;
    while i < 26
        invariant
            is_perm(m@),
            inv@.len() == 26,
            0 <= i <= 26,
            forall|k: int| 0 <= k < i ==> #[trigger] inv[m[k] as int] == k,
            forall|j: int| 0 <= j < 26 ==> #[trigger] inv[j] < 26,
        decreases 26 - i,
    {
        let t = m[i];
        inv.set(t, i);
        i = i + 1;
    }
    assert forall|j: int| 0 <= j < 26 implies #[trigger] m[inv[j] as int] == j by {
        assert(hits(m@, j));
        let i = choose|i: int| 0 <= i < 26 && #[trigger] m[i] == j;
        assert(inv[m[i] as int] == i);
    }
    inv
}

} // verus!
