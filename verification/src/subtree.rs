use vstd::prelude::*;

use crate::hashes::{combine, encode};

verus! {

/// True when `n` is a power of two (1, 2, 4, ...).
pub open spec fn is_power2(n: nat) -> bool
    decreases n,
{
    if n == 0 {
        false
    } else if n == 1 {
        true
    } else {
        n % 2 == 0 && is_power2(n / 2)
    }
}

/// One level of bottom-up combination: adjacent digests are combined pairwise,
/// halving the layer.
pub open spec fn pair_up(layer: Seq<Seq<char>>) -> Seq<Seq<char>> {
    Seq::new(layer.len() / 2, |i: int| layer[2 * i] + layer[2 * i + 1])
}

/// The Merkle root of a layer of digests: pair adjacent digests and recurse
/// until a single digest remains. A one-digest layer is its own root.
pub open spec fn root_of(layer: Seq<Seq<char>>) -> Seq<char>
    recommends
        is_power2(layer.len()),
    decreases layer.len(),
{
    if layer.len() <= 1 {
        layer[0]
    } else {
        root_of(pair_up(layer))
    }
}

/// A perfect Merkle subtree: a root commitment over a power-of-two-sized,
/// insertion-ordered sequence of leaf digests.
#[derive(Debug)]
pub struct MerklePow2 {
    pub root: String,
    pub base: Vec<String>,
}

impl View for MerklePow2 {
    type V = Seq<Seq<char>>;

    open spec fn view(&self) -> Seq<Seq<char>> {
        self.base.deep_view()
    }
}

impl DeepView for MerklePow2 {
    type V = Seq<Seq<char>>;

    open spec fn deep_view(&self) -> Seq<Seq<char>> {
        self.base.deep_view()
    }
}

impl MerklePow2 {
    /// Well-formed: the leaf count is a power of two and the stored root is
    /// the commitment recomputed from the leaves.
    pub open spec fn wf(&self) -> bool {
        &&& is_power2(self.base@.len())
        &&& self.root@ == root_of(self.base.deep_view())
    }

    /// Builds a perfect subtree over a power-of-two-sized batch of keys:
    /// each key is hashed into a leaf digest and the root is computed
    /// bottom-up.
    pub fn new(data: Vec<String>) -> (res: MerklePow2)
        requires
            is_power2(data@.len()),
        ensures
            res.wf(),
            res.base@ == data@,
            res.root@ == root_of(data.deep_view()),
    {
        let n = data.len();
        let mut base: Vec<String> = Vec::new();
        let mut scratch: Vec<String> = Vec::new();
        let mut i: usize = 0;
        while i < n
            invariant
                n == data@.len(),
                i <= n,
                base@ == data@.take(i as int),
                scratch@ == data@.take(i as int),
            decreases n - i,
        {
            base.push(encode(data[i].clone()));
            scratch.push(encode(data[i].clone()));
            proof {
                assert(base@ =~= data@.take(i + 1));
                assert(scratch@ =~= data@.take(i + 1));
            }
            i = i + 1;
        }
        proof {
            assert(base@ =~= data@);
            assert(scratch@ =~= data@);
        }
        let root = MerklePow2::compute_root(scratch);
        MerklePow2 { root, base }
    }

    /// Computes the root of a power-of-two-sized layer of digests by
    /// repeatedly combining adjacent digests until one remains.
    pub fn compute_root(data: Vec<String>) -> (res: String)
        requires
            is_power2(data@.len()),
        ensures
            res@ == root_of(data.deep_view()),
        decreases data@.len(),
    {
        let n = data.len();
        if n == 1 {
            data[0].clone()
        } else {
            let mut next_layer: Vec<String> = Vec::new();
            let mut i: usize = 0;
            proof {
                vstd::arithmetic::div_mod::lemma_fundamental_div_mod(n as int, 2);
            }
            while i < n / 2
                invariant
                    n == data@.len(),
                    2 <= n,
                    n % 2 == 0,
                    i <= n / 2,
                    next_layer@.len() == i as int,
                    forall|j: int|
                        #![trigger next_layer@[j]]
                        0 <= j < i as int ==> next_layer@[j]@ == data@[2 * j]@ + data@[2 * j
                            + 1]@,
                decreases n / 2 - i,
            {
                let c = combine(&data[2 * i], &data[2 * i + 1]);
                next_layer.push(c);
                i = i + 1;
            }
            proof {
                let dv = data.deep_view();
                assert forall|j: int| 0 <= j < n / 2 implies next_layer.deep_view()[j]
                    == pair_up(dv)[j] by {
                    assert(next_layer.deep_view()[j] == next_layer@[j]@);
                    assert(dv[2 * j] == data@[2 * j]@);
                    assert(dv[2 * j + 1] == data@[2 * j + 1]@);
                }
                assert(next_layer.deep_view() =~= pair_up(dv));
            }
            MerklePow2::compute_root(next_layer)
        }
    }

    /// Searches one layer for the tracked digest and recurses upward. At
    /// each layer only the first pair holding the tracked digest contributes
    /// a sibling, so a repeated leaf value is matched exactly once. Pushes
    /// nothing when the digest misses the layer.
    fn generate_proof_rec(base: &Vec<String>, hash: String, path: &mut Vec<String>) -> (found:
        bool)
        requires
            is_power2(base@.len()),
        ensures
            found == subtree_found(base.deep_view(), hash@),
            final(path).deep_view() == old(path).deep_view() + subtree_frag(
                base.deep_view(),
                hash@,
            ),
        decreases base@.len(),
    {
        let n = base.len();
        if n == 1 {
            let found = base[0] == hash;
            proof {
                assert(base.deep_view()[0] == base@[0]@);
                assert(path.deep_view() =~~= old(path).deep_view() + subtree_frag(
                    base.deep_view(),
                    hash@,
                ));
            }
            found
        } else {
            let mut next_layer: Vec<String> = Vec::new();
            let mut found = false;
            let mut new_hash = hash.clone();
            let ghost mut kf: int = 0;
            let mut i: usize = 0;
            proof {
                vstd::arithmetic::div_mod::lemma_fundamental_div_mod(n as int, 2);
            }
            while i < n / 2
                invariant
                    n == base@.len(),
                    2 <= n,
                    n % 2 == 0,
                    i <= n / 2,
                    next_layer@.len() == i as int,
                    forall|j: int|
                        #![trigger next_layer@[j]]
                        0 <= j < i as int ==> next_layer@[j]@ == base@[2 * j]@ + base@[2 * j
                            + 1]@,
                    !found ==> {
                        &&& path@ == old(path)@
                        &&& forall|j: int|
                            #![trigger base@[2 * j]]
                            0 <= j < i as int ==> !(base@[2 * j]@ == hash@ || base@[2 * j + 1]@
                                == hash@)
                    },
                    found ==> {
                        &&& 0 <= kf < i as int
                        &&& base@[2 * kf]@ == hash@ || base@[2 * kf + 1]@ == hash@
                        &&& forall|j: int|
                            #![trigger base@[2 * j]]
                            0 <= j < kf ==> !(base@[2 * j]@ == hash@ || base@[2 * j + 1]@
                                == hash@)
                        &&& path@ == old(path)@.push(
                            if base@[2 * kf]@ == hash@ {
                                base@[2 * kf + 1]
                            } else {
                                base@[2 * kf]
                            },
                        )
                        &&& new_hash@ == base@[2 * kf]@ + base@[2 * kf + 1]@
                    },
                decreases n / 2 - i,
            {
                let c = combine(&base[2 * i], &base[2 * i + 1]);
                if !found {
                    if base[2 * i] == hash {
                        path.push(base[2 * i + 1].clone());
                        found = true;
                        new_hash = c.clone();
                        proof {
                            kf = i as int;
                        }
                    } else if base[2 * i + 1] == hash {
                        path.push(base[2 * i].clone());
                        found = true;
                        new_hash = c.clone();
                        proof {
                            kf = i as int;
                        }
                    }
                }
                next_layer.push(c);
                i = i + 1;
            }
            proof {
                let dv = base.deep_view();
                assert forall|x: int| 0 <= x < n implies dv[x] == base@[x]@ by {}
                assert forall|j: int| 0 <= j < n as int / 2 implies next_layer.deep_view()[j]
                    == pair_up(dv)[j] by {
                    assert(next_layer.deep_view()[j] == next_layer@[j]@);
                }
                assert(next_layer.deep_view() =~= pair_up(dv));
                lemma_first_pair_props(dv, hash@, 0);
                let r = first_pair_at(dv, hash@, 0);
                if found {
                    assert(pair_has(dv, hash@, kf));
                    assert(r != n as int / 2);
                    assert(!pair_has(dv, hash@, r) ==> r == n as int / 2);
                    if r < kf {
                        assert(pair_has(dv, hash@, r));
                        assert(dv[2 * r] == base@[2 * r]@);
                        assert(dv[2 * r + 1] == base@[2 * r + 1]@);
                        assert(!(base@[2 * r]@ == hash@ || base@[2 * r + 1]@ == hash@));
                        assert(false);
                    }
                    assert(kf <= r);
                    assert(r <= kf);
                    assert(r == kf);
                    assert(subtree_found(dv, hash@));
                } else {
                    assert forall|j: int| 0 <= j < n as int / 2 implies !pair_has(
                        dv,
                        hash@,
                        j,
                    ) by {}
                    assert(r == n as int / 2);
                    assert(!subtree_found(dv, hash@));
                    assert(subtree_frag(dv, hash@) == Seq::<Seq<char>>::empty());
                    assert(path.deep_view() =~~= old(path).deep_view() + subtree_frag(
                        dv,
                        hash@,
                    ));
                }
            }
            if found {
                let ghost mid = path.deep_view();
                let _found_above = MerklePow2::generate_proof_rec(&next_layer, new_hash, path);
                proof {
                    let dv = base.deep_view();
                    assert(mid =~~= old(path).deep_view().push(sibling_of(dv, hash@, kf)));
                    assert(new_hash@ == dv[2 * kf] + dv[2 * kf + 1]);
                    assert(subtree_frag(dv, hash@) == seq![sibling_of(dv, hash@, kf)]
                        + subtree_frag(pair_up(dv), dv[2 * kf] + dv[2 * kf + 1]));
                    assert(path.deep_view() =~~= old(path).deep_view() + subtree_frag(
                        dv,
                        hash@,
                    ));
                }
            }
            found
        }
    }

    /// Appends to `path` the sibling digests that lead from `hash` to this
    /// subtree's root, in root-ward order. Returns whether the digest is a
    /// leaf of this subtree; on a miss, `path` is left untouched.
    pub fn generate_proof(&self, hash: String, path: &mut Vec<String>) -> (found: bool)
        requires
            self.wf(),
        ensures
            found == subtree_found(self.base.deep_view(), hash@),
            found == self.base.deep_view().contains(hash@),
            final(path).deep_view() == old(path).deep_view() + subtree_frag(
                self.base.deep_view(),
                hash@,
            ),
    {
        proof {
            lemma_found_is_contains(self.base.deep_view(), hash@);
        }
        MerklePow2::generate_proof_rec(&self.base, hash, path)
    }

    /// Merges a same-size subtree onto the logical left of this one: the
    /// result commits to `tree`'s leaves (older) followed by this subtree's
    /// leaves (newer), and the new root is the combination of the two roots
    /// with the older root on the left.
    pub fn join(&mut self, tree: &MerklePow2)
        requires
            old(self).wf(),
            tree.wf(),
            old(self).base@.len() == tree.base@.len(),
        ensures
            final(self).wf(),
            final(self).base@ == tree.base@ + old(self).base@,
            final(self).root@ == tree.root@ + old(self).root@,
    {
        self.root = combine(&tree.root, &self.root);
        let mut joined: Vec<String> = Vec::new();
        let m = tree.base.len();
        let mut i: usize = 0;
        while i < m
            invariant
                m == tree.base@.len(),
                i <= m,
                joined@ == tree.base@.take(i as int),
            decreases m - i,
        {
            joined.push(tree.base[i].clone());
            proof {
                assert(joined@ =~= tree.base@.take(i + 1));
            }
            i = i + 1;
        }
        let n = self.base.len();
        let mut k: usize = 0;
        while k < n
            invariant
                m == tree.base@.len(),
                n == self.base@.len(),
                self.base@ == old(self).base@,
                k <= n,
                joined@ == tree.base@ + self.base@.take(k as int),
            decreases n - k,
        {
            joined.push(self.base[k].clone());
            proof {
                assert(joined@ =~= tree.base@ + self.base@.take(k + 1));
            }
            k = k + 1;
        }
        proof {
            assert(joined@ =~= tree.base@ + old(self).base@);
        }
        self.base = joined;
        proof {
            let a = tree.base.deep_view();
            let b = old(self).base.deep_view();
            assert(self.base.deep_view() =~~= a + b);
            lemma_root_of_append(a, b);
        }
    }
}

impl PartialEq for MerklePow2 {
    /// Structural equality: same root digest and the same leaf digests in
    /// the same order.
    fn eq(&self, other: &MerklePow2) -> (r: bool) {
        if !(self.root == other.root) {
            return false;
        }
        if self.base.len() != other.base.len() {
            proof {
                assert(self.base.deep_view().len() != other.base.deep_view().len());
            }
            return false;
        }
        let n = self.base.len();
        let mut i: usize = 0;
        while i < n
            invariant
                n == self.base@.len(),
                n == other.base@.len(),
                i <= n,
                self.root@ == other.root@,
                forall|j: int|
                    #![trigger self.base@[j]]
                    0 <= j < i as int ==> self.base@[j]@ == other.base@[j]@,
            decreases n - i,
        {
            if !(self.base[i] == other.base[i]) {
                proof {
                    assert(self.base.deep_view()[i as int] == self.base@[i as int]@);
                    assert(other.base.deep_view()[i as int] == other.base@[i as int]@);
                }
                return false;
            }
            i = i + 1;
        }
        proof {
            assert forall|j: int| 0 <= j < n implies self.base.deep_view()[j]
                == other.base.deep_view()[j] by {
                assert(self.base.deep_view()[j] == self.base@[j]@);
                assert(other.base.deep_view()[j] == other.base@[j]@);
            }
            assert(self.base.deep_view() =~= other.base.deep_view());
        }
        true
    }
}

impl vstd::std_specs::cmp::PartialEqSpecImpl for MerklePow2 {
    open spec fn obeys_eq_spec() -> bool {
        true
    }

    open spec fn eq_spec(&self, other: &MerklePow2) -> bool {
        self.root@ == other.root@ && self.base.deep_view() == other.base.deep_view()
    }
}

/// True when pair `k` of the layer (digests `2k` and `2k + 1`) holds `h`.
pub open spec fn pair_has(layer: Seq<Seq<char>>, h: Seq<char>, k: int) -> bool {
    layer[2 * k] == h || layer[2 * k + 1] == h
}

/// The digest paired with `h` in pair `k`; the left element takes priority
/// when both match.
pub open spec fn sibling_of(layer: Seq<Seq<char>>, h: Seq<char>, k: int) -> Seq<char> {
    if layer[2 * k] == h {
        layer[2 * k + 1]
    } else {
        layer[2 * k]
    }
}

/// The least pair index at or after `k` whose pair holds `h`, or the number
/// of pairs when no pair from `k` on holds it.
pub open spec fn first_pair_at(layer: Seq<Seq<char>>, h: Seq<char>, k: int) -> int
    decreases layer.len() / 2 - k,
{
    if k < 0 || k >= layer.len() / 2 {
        layer.len() as int / 2
    } else if pair_has(layer, h, k) {
        k
    } else {
        first_pair_at(layer, h, k + 1)
    }
}

/// The sibling digests pushed while tracking `h` from the given layer up to
/// the root: at each layer the first pair holding the tracked digest
/// contributes its sibling, and the tracked digest becomes the pair's
/// combination. Empty when the tracked digest misses the layer.
pub open spec fn subtree_frag(layer: Seq<Seq<char>>, h: Seq<char>) -> Seq<Seq<char>>
    decreases layer.len(),
{
    if layer.len() <= 1 {
        Seq::empty()
    } else {
        let k = first_pair_at(layer, h, 0);
        if k < layer.len() as int / 2 {
            seq![sibling_of(layer, h, k)] + subtree_frag(pair_up(layer), layer[2 * k] + layer[2 * k
                + 1])
        } else {
            Seq::empty()
        }
    }
}

/// Whether the search for `h` succeeds on the given layer.
pub open spec fn subtree_found(layer: Seq<Seq<char>>, h: Seq<char>) -> bool {
    if layer.len() <= 1 {
        layer.len() == 1 && layer[0] == h
    } else {
        first_pair_at(layer, h, 0) < layer.len() as int / 2
    }
}

/// `first_pair_at` returns the least matching pair index: nothing before it
/// matches, and it matches unless it is the pair count.
pub proof fn lemma_first_pair_props(layer: Seq<Seq<char>>, h: Seq<char>, k: int)
    requires
        0 <= k <= layer.len() as int / 2,
    ensures
        ({
            let r = first_pair_at(layer, h, k);
            &&& k <= r <= layer.len() as int / 2
            &&& (r < layer.len() as int / 2 ==> pair_has(layer, h, r))
            &&& forall|j: int| k <= j < r ==> !pair_has(layer, h, j)
        }),
    decreases layer.len() / 2 - k,
{
    if k < layer.len() as int / 2 && !pair_has(layer, h, k) {
        lemma_first_pair_props(layer, h, k + 1);
    }
}

/// On a power-of-two-sized layer the search succeeds exactly when the layer
/// holds the digest.
pub proof fn lemma_found_is_contains(layer: Seq<Seq<char>>, h: Seq<char>)
    requires
        is_power2(layer.len()),
    ensures
        subtree_found(layer, h) == layer.contains(h),
{
    let n = layer.len() as int;
    if layer.len() == 1 {
        if layer.contains(h) {
            let i = choose|i: int| 0 <= i < n && layer[i] == h;
            assert(layer[0] == h);
        }
        if layer[0] == h {
            assert(layer.contains(h));
        }
    } else {
        vstd::arithmetic::div_mod::lemma_fundamental_div_mod(n, 2);
        lemma_first_pair_props(layer, h, 0);
        let r = first_pair_at(layer, h, 0);
        if r < n / 2 {
            if layer[2 * r] == h {
                assert(layer.contains(h));
            } else {
                assert(layer[2 * r + 1] == h);
                assert(layer.contains(h));
            }
        } else {
            if layer.contains(h) {
                let i = choose|i: int| 0 <= i < n && layer[i] == h;
                let j = i / 2;
                vstd::arithmetic::div_mod::lemma_fundamental_div_mod(i, 2);
                assert(2 * j == i || 2 * j + 1 == i);
                assert(0 <= j < n / 2);
                assert(pair_has(layer, h, j));
                assert(false);
            }
        }
    }
}

/// The root of the concatenation of two equal, power-of-two-sized layers is
/// the concatenation of their roots: joining subtrees needs no recomputation
/// below the new top node.
pub proof fn lemma_root_of_append(a: Seq<Seq<char>>, b: Seq<Seq<char>>)
    requires
        a.len() == b.len(),
        is_power2(a.len()),
    ensures
        root_of(a + b) == root_of(a) + root_of(b),
    decreases a.len(),
{
    let m = a.len() as int;
    if a.len() == 1 {
        assert(pair_up(a + b) =~~= seq![a[0] + b[0]]);
        assert(root_of(seq![a[0] + b[0]]) == a[0] + b[0]);
        assert(root_of(a + b) == root_of(pair_up(a + b)));
    } else {
        assert forall|i: int| 0 <= i < m implies pair_up(a + b)[i] == (pair_up(a) + pair_up(
            b,
        ))[i] by {
            vstd::arithmetic::div_mod::lemma_fundamental_div_mod(m, 2);
            if i < m / 2 {
                assert((a + b)[2 * i] == a[2 * i]);
                assert((a + b)[2 * i + 1] == a[2 * i + 1]);
            } else {
                assert((a + b)[2 * i] == b[2 * i - m]);
                assert((a + b)[2 * i + 1] == b[2 * i + 1 - m]);
                assert(pair_up(b)[i - m / 2] == b[2 * (i - m / 2)] + b[2 * (i - m / 2) + 1]);
            }
        }
        assert(pair_up(a + b) =~~= pair_up(a) + pair_up(b));
        lemma_root_of_append(pair_up(a), pair_up(b));
    }
}

} // verus!
