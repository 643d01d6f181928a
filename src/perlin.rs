use vstd::prelude::*;

use crate::random::random_below;

verus! {

/// Number of lattice vectors, and the period of the lattice along each axis.
pub const POINT_COUNT: usize = 256;

/// `p` is a bijection on `[0, n)`: every entry is below `n`, no two entries
/// are equal, and every value below `n` occurs.
pub open spec fn is_permutation(p: Seq<usize>, n: nat) -> bool {
    &&& p.len() == n
    &&& forall|i: int| 0 <= i < n ==> #[trigger] p[i] < n
    &&& forall|i: int, j: int| 0 <= i < n && 0 <= j < n && i != j ==> p[i] != p[j]
    &&& forall|v: usize| v < n ==> #[trigger] p.contains(v)
}

/// `p` with the entries at `a` and `b` exchanged.
pub open spec fn swap_entries(p: Seq<usize>, a: int, b: int) -> Seq<usize> {
    p.update(a, p[b]).update(b, p[a])
}

/// Exchanging two entries of a permutation gives a permutation.
proof fn lemma_swap_keeps_permutation(p: Seq<usize>, n: nat, a: int, b: int)
    requires
        is_permutation(p, n),
        0 <= a < n,
        0 <= b < n,
    ensures
        is_permutation(swap_entries(p, a, b), n),
{
    let q = swap_entries(p, a, b);
    assert forall|v: usize| v < n implies #[trigger] q.contains(v) by {
        assert(p.contains(v));
        let w = choose|i: int| 0 <= i < p.len() && p[i] == v;
        if w == a {
            assert(q[b] == v);
        } else if w == b {
            assert(q[a] == v);
        } else {
            assert(q[w] == v);
        }
    }
}

/// Swap targets of a Fisher-Yates shuffle of `[0, POINT_COUNT)`: step `k`
/// exchanges index `POINT_COUNT - 1 - k` with `t[k]`, which is at most that
/// index.
pub open spec fn valid_targets(t: Seq<usize>) -> bool {
    &&& t.len() == POINT_COUNT - 1
    &&& forall|k: int| 0 <= k < t.len() ==> #[trigger] t[k] <= POINT_COUNT - 1 - k
}

/// The identity on `[0, POINT_COUNT)` after the first `k` swaps that `t`
/// describes.
pub open spec fn shuffled_prefix(t: Seq<usize>, k: nat) -> Seq<usize>
    decreases k,
{
    if k == 0 {
        Seq::new(POINT_COUNT as nat, |i: int| i as usize)
    } else {
        let j = k - 1;
        swap_entries(shuffled_prefix(t, j as nat), POINT_COUNT - 1 - j, t[j] as int)
    }
}

/// The identity on `[0, POINT_COUNT)` after every swap that `t` describes.
pub open spec fn shuffled(t: Seq<usize>) -> Seq<usize> {
    shuffled_prefix(t, t.len())
}

/// Applies the Fisher-Yates swaps `targets` to the identity: step `k`
/// exchanges the entries at `POINT_COUNT - 1 - k` and `targets[k]`.
pub fn shuffle(targets: &Vec<usize>) -> (p: Vec<usize>)
    requires
        valid_targets(targets@),
    ensures
        p@ == shuffled(targets@),
        is_permutation(p@, POINT_COUNT as nat),
{
    let mut p: Vec<usize> = Vec::new();
    for i in 0..POINT_COUNT
        invariant
            p.len() == i,
            forall|k: int| 0 <= k < i ==> p[k] == k,
    {
        p.push(i);
    }
    assert(p@ =~= shuffled_prefix(targets@, 0));
    assert(is_permutation(p@, POINT_COUNT as nat)) by {
        assert forall|v: usize| v < POINT_COUNT implies #[trigger] p@.contains(v) by {
            assert(p@[v as int] == v);
        }
    }
    for k in 0..POINT_COUNT - 1
        invariant
            valid_targets(targets@),
            p@ == shuffled_prefix(targets@, k as nat),
            is_permutation(p@, POINT_COUNT as nat),
    {
        let i = POINT_COUNT - 1 - k;
        let target = targets[k];
        proof {
            lemma_swap_keeps_permutation(p@, POINT_COUNT as nat, i as int, target as int);
        }
        let ghost before = p@;
        let tmp = p[i];
        p[i] = p[target];
        p[target] = tmp;
        assert(p@ =~= swap_entries(before, i as int, target as int));
    }
    p
}

/// A random permutation of `[0, POINT_COUNT)`: a Fisher-Yates shuffle of the
/// identity whose step for index `i` swaps it with a target drawn from
/// `[0, i]`.
pub fn make_permutation() -> (p: Vec<usize>)
    ensures
        is_permutation(p@, POINT_COUNT as nat),
        exists|t: Seq<usize>| valid_targets(t) && p@ == shuffled(t),
{
    let mut targets: Vec<usize> = Vec::new();
    for k in 0..POINT_COUNT - 1
        invariant
            targets.len() == k,
            forall|m: int| 0 <= m < k ==> #[trigger] targets@[m] <= POINT_COUNT - 1 - m,
    {
        targets.push(random_below(POINT_COUNT - k));
    }
    let p = shuffle(&targets);
    assert(valid_targets(targets@) && p@ == shuffled(targets@));
    p
}

/// Position of a lattice coordinate within one period of the lattice.
pub open spec fn wrap(i: int) -> int {
    i % (POINT_COUNT as int)
}

/// Index into the lattice vectors for the corner `(i, j, k)`, with the three
/// permutations hashed together.
pub open spec fn lattice_index(px: Seq<usize>, py: Seq<usize>, pz: Seq<usize>, i: int, j: int, k: int) -> usize {
    px[wrap(i)] ^ py[wrap(j)] ^ pz[wrap(k)]
}

/// The three per-axis permutations of a Perlin noise generator. They are
/// fixed at construction and hash lattice corners to lattice vectors.
#[derive(Debug)]
pub struct PerlinLattice {
    permutation_x: Vec<usize>,
    permutation_y: Vec<usize>,
    permutation_z: Vec<usize>,
}

impl PerlinLattice {
    #[verifier::type_invariant]
    spec fn inv(self) -> bool {
        &&& is_permutation(self.permutation_x@, POINT_COUNT as nat)
        &&& is_permutation(self.permutation_y@, POINT_COUNT as nat)
        &&& is_permutation(self.permutation_z@, POINT_COUNT as nat)
    }

    pub closed spec fn perm_x(self) -> Seq<usize> {
        self.permutation_x@
    }

    pub closed spec fn perm_y(self) -> Seq<usize> {
        self.permutation_y@
    }

    pub closed spec fn perm_z(self) -> Seq<usize> {
        self.permutation_z@
    }

    /// Three independently shuffled permutations.
    pub fn new() -> (r: Self)
        ensures
            is_permutation(r.perm_x(), POINT_COUNT as nat),
            is_permutation(r.perm_y(), POINT_COUNT as nat),
            is_permutation(r.perm_z(), POINT_COUNT as nat),
            exists|t: Seq<usize>| valid_targets(t) && r.perm_x() == shuffled(t),
            exists|t: Seq<usize>| valid_targets(t) && r.perm_y() == shuffled(t),
            exists|t: Seq<usize>| valid_targets(t) && r.perm_z() == shuffled(t),
    {
        PerlinLattice {
            permutation_x: make_permutation(),
            permutation_y: make_permutation(),
            permutation_z: make_permutation(),
        }
    }

    pub fn permutation_x(&self) -> (r: &Vec<usize>)
        ensures
            r@ == self.perm_x(),
            is_permutation(r@, POINT_COUNT as nat),
    {
        proof {
            use_type_invariant(self);
        }
        &self.permutation_x
    }

    pub fn permutation_y(&self) -> (r: &Vec<usize>)
        ensures
            r@ == self.perm_y(),
            is_permutation(r@, POINT_COUNT as nat),
    {
        proof {
            use_type_invariant(self);
        }
        &self.permutation_y
    }

    pub fn permutation_z(&self) -> (r: &Vec<usize>)
        ensures
            r@ == self.perm_z(),
            is_permutation(r@, POINT_COUNT as nat),
    {
        proof {
            use_type_invariant(self);
        }
        &self.permutation_z
    }

    /// Lattice-vector indices of the eight corners of the unit cell whose
    /// lowest corner is `(i, j, k)`. Entry `4 * di + 2 * dj + dk` belongs to
    /// the corner `(i + di, j + dj, k + dk)`.
    pub fn corner_indices(&self, i: i64, j: i64, k: i64) -> (r: Vec<usize>)
        ensures
            r.len() == 8,
            forall|di: int, dj: int, dk: int|
                0 <= di < 2 && 0 <= dj < 2 && 0 <= dk < 2 ==> #[trigger] r@[4 * di + 2 * dj + dk]
                    == lattice_index(self.perm_x(), self.perm_y(), self.perm_z(), i + di, j + dj, k + dk),
            forall|n: int| 0 <= n < 8 ==> #[trigger] r@[n] < POINT_COUNT,
    {
        proof {
            use_type_invariant(self);
        }
        let bi = low_byte(i);
        let bj = low_byte(j);
        let bk = low_byte(k);
        let mut r: Vec<usize> = Vec::new();
        for n in 0..8usize
            invariant
                r.len() == n,
                bi == wrap(i as int),
                bj == wrap(j as int),
                bk == wrap(k as int),
                is_permutation(self.perm_x(), POINT_COUNT as nat),
                is_permutation(self.perm_y(), POINT_COUNT as nat),
                is_permutation(self.perm_z(), POINT_COUNT as nat),
                forall|m: int|
                    0 <= m < n ==> #[trigger] r@[m] == lattice_index(
                        self.perm_x(),
                        self.perm_y(),
                        self.perm_z(),
                        i + m / 4,
                        j + m / 2 % 2,
                        k + m % 2,
                    ) && r@[m] < POINT_COUNT,
        {
            let x = self.permutation_x[(bi + n / 4) % POINT_COUNT];
            let y = self.permutation_y[(bj + n / 2 % 2) % POINT_COUNT];
            let z = self.permutation_z[(bk + n % 2) % POINT_COUNT];
            proof {
                lemma_xor_below(x, y, z);
            }
            r.push(x ^ y ^ z);
        }
        assert forall|di: int, dj: int, dk: int|
            0 <= di < 2 && 0 <= dj < 2 && 0 <= dk < 2 implies #[trigger] r@[4 * di + 2 * dj + dk]
            == lattice_index(self.perm_x(), self.perm_y(), self.perm_z(), i + di, j + dj, k + dk) by {
            let m = 4 * di + 2 * dj + dk;
            assert(m / 4 == di && m / 2 % 2 == dj && m % 2 == dk);
        }
        r
    }
}

/// `i` reduced into one period of the lattice, as an index.
fn low_byte(i: i64) -> (r: usize)
    ensures
        r == wrap(i as int),
{
    let m = i % 256;
    let b = if m < 0 { m + 256 } else { m };
    b as usize
}

proof fn lemma_xor_below(x: usize, y: usize, z: usize)
    requires
        x < 256,
        y < 256,
        z < 256,
    ensures
        x ^ y ^ z < 256,
{
    assert(x < 256 && y < 256 && z < 256 ==> x ^ y ^ z < 256) by (bit_vector);
}

} // verus!
