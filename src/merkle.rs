use crate::field::Felt;
use crate::fri_prover::Mmcs;
use crate::matrix::RowMajorMatrix;
use vstd::prelude::*;

verus! {

/// A hash of field elements to a digest, and a compression of two digests into one.
pub trait Hasher {
    fn hash(&self, input: &Vec<Felt>) -> Vec<Felt>;

    fn compress(&self, left: &Vec<Felt>, right: &Vec<Felt>) -> Vec<Felt>;
}

/// What a Merkle commitment keeps: the matrices and every level of the tree, leaves first.
pub struct MerkleData {
    pub mats: Vec<RowMajorMatrix<Felt>>,
    pub levels: Vec<Vec<Vec<Felt>>>,
}

/// A commitment to a batch of matrices as a Merkle tree: leaf `j` hashes row `j` of every
/// matrix (row `j mod height` of a shorter one), each level compresses pairs of the one
/// below, and the commitment is the root.
pub struct MerkleTreeMmcs<H> {
    pub hasher: H,
}

/// The position of the node paired with node `i` in its level of `len` nodes: its
/// neighbour, or itself when it is the last of an odd level.
pub open spec fn sibling(i: int, len: int) -> int {
    if i % 2 == 0 {
        if i + 1 < len {
            i + 1
        } else {
            i
        }
    } else {
        i - 1
    }
}

/// Each level has half as many nodes as the one below, rounded up, and the first is not empty.
pub open spec fn levels_wf(levels: Seq<Vec<Vec<Felt>>>) -> bool {
    &&& levels.len() >= 1
    &&& levels[0]@.len() > 0
    &&& forall|k: int| 0 <= k < levels.len() - 1 ==> #[trigger] levels[k + 1]@.len() == (levels[k]@.len() + 1) / 2
}

/// Entry `k` of `proof` is the node paired, at level `k`, with the one on the way from leaf
/// `index` up.
pub open spec fn path_entry_ok(index: nat, levels: Seq<Vec<Vec<Felt>>>, proof: Seq<Vec<Felt>>, k: int) -> bool {
    let i = (index / vstd::arithmetic::power2::pow2(k as nat)) as int;
    &&& 0 <= i < levels[k]@.len()
    &&& proof[k]@ == levels[k]@[sibling(i, levels[k]@.len() as int)]@
}

/// `proof` holds, for each level below the root, the node paired with the one on the way
/// from leaf `index` up.
pub open spec fn merkle_path_ok(index: nat, levels: Seq<Vec<Vec<Felt>>>, proof: Seq<Vec<Felt>>) -> bool {
    &&& levels.len() >= 1
    &&& proof.len() == levels.len() - 1
    &&& forall|k: int| 0 <= k < proof.len() ==> #[trigger] path_entry_ok(index, levels, proof, k)
}

impl<H: Hasher> MerkleTreeMmcs<H> {
    /// The leaf for row `j`: the hash of that row of every matrix, joined.
    fn leaf(&self, mats: &Vec<RowMajorMatrix<Felt>>, j: usize) -> Vec<Felt> {
        let mut joined: Vec<Felt> = Vec::new();
        let mut m: usize = 0;
        while m < mats.len()
            invariant
                m <= mats@.len(),
            decreases mats@.len() - m,
        {
            let mat = &mats[m];
            if mat.width > 0 && mat.values.len() % mat.width == 0 {
                let h = mat.height();
                if h > 0 {
                    let row = mat.row(j % h);
                    let mut c: usize = 0;
                    while c < row.len()
                        invariant
                            c <= row@.len(),
                        decreases row@.len() - c,
                    {
                        joined.push(row[c]);
                        c = c + 1;
                    }
                }
            }
            m = m + 1;
        }
        self.hasher.hash(&joined)
    }
}

impl<H: Hasher> Mmcs for MerkleTreeMmcs<H> {
    type Commitment = Vec<Felt>;
    type ProverData = MerkleData;
    type Proof = Vec<Vec<Felt>>;

    open spec fn committed(&self, data: MerkleData) -> Seq<RowMajorMatrix<Felt>> {
        data.mats@
    }

    open spec fn path_ok(&self, index: usize, data: MerkleData, proof: Vec<Vec<Felt>>) -> bool {
        levels_wf(data.levels@) && index < data.levels@[0]@.len() ==> merkle_path_ok(index as nat, data.levels@, proof@)
    }

    fn commit(&self, mats: Vec<RowMajorMatrix<Felt>>) -> (r: (Vec<Felt>, MerkleData)) {
        let mut n: usize = 1;
        let mut m: usize = 0;
        while m < mats.len()
            invariant
                m <= mats@.len(),
                n >= 1,
            decreases mats@.len() - m,
        {
            let mat = &mats[m];
            if mat.width > 0 && mat.values.len() % mat.width == 0 && mat.height() > n {
                n = mat.height();
            }
            m = m + 1;
        }
        let mut leaves: Vec<Vec<Felt>> = Vec::new();
        let mut j: usize = 0;
        while j < n
            invariant
                j <= n,
                leaves@.len() == j,
            decreases n - j,
        {
            leaves.push(self.leaf(&mats, j));
            j = j + 1;
        }
        let mut levels: Vec<Vec<Vec<Felt>>> = Vec::new();
        let mut cur = leaves;
        while cur.len() > 1
            invariant
                cur@.len() >= 1,
            decreases cur@.len(),
        {
            let mut next: Vec<Vec<Felt>> = Vec::new();
            let mut i: usize = 0;
            while i < cur.len()
                invariant
                    i <= cur@.len(),
                    i % 2 == 0 || i == cur@.len(),
                    next@.len() == (i + 1) / 2,
                    cur@.len() > 1,
                decreases cur@.len() - i,
            {
                if i + 1 < cur.len() {
                    next.push(self.hasher.compress(&cur[i], &cur[i + 1]));
                    i = i + 2;
                } else {
                    next.push(self.hasher.compress(&cur[i], &cur[i]));
                    i = cur.len();
                }
            }
            levels.push(cur);
            cur = next;
        }
        let root = crate::commit_phase::copy_word(&cur[0]);
        levels.push(cur);
        (root, MerkleData { mats, levels })
    }

    fn open_path(&self, index: usize, data: &MerkleData) -> (r: Vec<Vec<Felt>>) {
        let mut path: Vec<Vec<Felt>> = Vec::new();
        if data.levels.len() == 0 || index >= data.levels[0].len() {
            return path;
        }
        let mut i = index;
        let mut k: usize = 0;
        proof {
            vstd::arithmetic::power2::lemma2_to64();
        }
        while k < data.levels.len() - 1
            invariant
                data.levels@.len() >= 1,
                k <= data.levels@.len() - 1,
                path@.len() == k,
                index < data.levels@[0]@.len(),
                i == index as nat / vstd::arithmetic::power2::pow2(k as nat),
                levels_wf(data.levels@) ==> i < data.levels@[k as int]@.len(),
                levels_wf(data.levels@) ==> forall|j: int|
                    0 <= j < k ==> #[trigger] path_entry_ok(index as nat, data.levels@, path@, j),
            decreases data.levels@.len() - k,
        {
            proof {
                vstd::arithmetic::power2::lemma_pow2_unfold((k + 1) as nat);
                vstd::arithmetic::power2::lemma_pow2_pos(k as nat);
                vstd::arithmetic::div_mod::lemma_div_denominator(index as int, vstd::arithmetic::power2::pow2(k as nat) as int, 2);
                vstd::arithmetic::mul::lemma_mul_is_commutative(vstd::arithmetic::power2::pow2(k as nat) as int, 2);
            }
            let level = &data.levels[k];
            let ghost old_proof = path@;
            let ghost i_prev = i;
            if i < level.len() {
                let s = if i % 2 == 0 {
                    if i + 1 < level.len() { i + 1 } else { i }
                } else {
                    i - 1
                };
                path.push(crate::commit_phase::copy_word(&level[s]));
            } else {
                path.push(Vec::new());
            }
            proof {
                assert forall|j: int| 0 <= j < k implies #[trigger] path@[j] == old_proof[j] by {}
                if levels_wf(data.levels@) {
                    assert(data.levels@[k + 1]@.len() == (data.levels@[k as int]@.len() + 1) / 2);
                    assert(i_prev < level@.len());
                    assert(path@[k as int]@ == data.levels@[k as int]@[sibling(i_prev as int, data.levels@[k as int]@.len() as int)]@);
                    assert(i_prev == index as nat / vstd::arithmetic::power2::pow2(k as nat));
                    assert forall|j: int| 0 <= j < k + 1 implies #[trigger] path_entry_ok(index as nat, data.levels@, path@, j) by {
                        if j < k {
                            assert(path@[j] == old_proof[j]);
                            assert(path_entry_ok(index as nat, data.levels@, old_proof, j));
                        }
                    }
                }
            }
            i = i / 2;
            k = k + 1;
        }
        path
    }
}

} // verus!
