//! The incrementally updatable tree: per-level node arrays over the domain
//! hash, proof generation, and pure proof verification.

use vstd::prelude::*;

use crate::hash::absorb;
use crate::hash::absorb_enc;
use crate::hash::compress;
use crate::hash::compress_enc;
use crate::hash::empty_hash;
use crate::hash::empty_hash_enc;
use crate::hash::field_from_bytes;
use crate::hash::parses_as_field;
use crate::hash::FieldElement;
use crate::TreeError;

verus! {

/// Self-contained evidence that a value stands at a position under a root
/// commitment: the leaf value, the sibling path from leaf level upward, and
/// the claimed root, all field elements in canonical encoding.
#[derive(Clone, Debug, PartialEq, Eq)]
pub struct Proof {
    pub index: usize,
    pub value: Vec<u8>,
    pub siblings: Vec<Vec<u8>>,
    pub root: Vec<u8>,
    pub empty: bool,
}

/// The authenticated tree: one vector of nodes per depth, leaf level first,
/// plus the raw leaf values.
#[derive(Clone)]
pub struct MerkleTree {
    data: Vec<Vec<FieldElement>>,
    leaves: Vec<Vec<u8>>,
}

/// The number of ceil-halvings that bring a level of n nodes down to one:
/// ceil(log2(n)) for n >= 1, and 0 when the tree is empty.
pub open spec fn spec_height(n: nat) -> nat
    decreases n,
{
    if n <= 1 {
        0
    } else {
        1 + spec_height((n + 1) / 2)
    }
}

/// The node at a position of a level, or the padding hash where the position
/// is past the level's end.
pub open spec fn node_or_empty(lvl: Seq<Seq<u8>>, k: int) -> Seq<u8> {
    if 0 <= k < lvl.len() {
        lvl[k]
    } else {
        empty_hash_enc()
    }
}

/// One level up: each parent is the compression of its two children, with a
/// missing right child padded by the empty hash.
pub open spec fn parent_level(lvl: Seq<Seq<u8>>) -> Seq<Seq<u8>> {
    Seq::new(
        (lvl.len() + 1) / 2,
        |p: int| compress_enc(node_or_empty(lvl, 2 * p), node_or_empty(lvl, 2 * p + 1)),
    )
}

/// All levels from the given leaf level upward, ending in the single root
/// node.
pub open spec fn levels_above(l0: Seq<Seq<u8>>) -> Seq<Seq<Seq<u8>>>
    decreases l0.len(),
{
    if l0.len() <= 1 {
        seq![l0]
    } else {
        seq![l0] + levels_above(parent_level(l0))
    }
}

/// The levels of a tree with the given leaf hashes: none when there are no
/// leaves.
pub open spec fn tree_levels(l0: Seq<Seq<u8>>) -> Seq<Seq<Seq<u8>>> {
    if l0.len() == 0 {
        Seq::<Seq<Seq<u8>>>::empty()
    } else {
        levels_above(l0)
    }
}

/// The committed hashes of a sequence of raw leaf values.
pub open spec fn leaf_hashes(leaves: Seq<Seq<u8>>) -> Seq<Seq<u8>> {
    leaves.map_values(|v: Seq<u8>| absorb_enc(v))
}

/// The root commitment of a sequence of raw leaf values: the top node, or the
/// empty hash for an empty tree.
pub open spec fn root_of(leaves: Seq<Seq<u8>>) -> Seq<u8> {
    if leaves.len() == 0 {
        empty_hash_enc()
    } else {
        levels_above(leaf_hashes(leaves)).last()[0]
    }
}

/// The position of a leaf's ancestor at each depth.
pub open spec fn spec_cursor(index: nat, d: nat) -> nat
    decreases d,
{
    if d == 0 {
        index
    } else {
        spec_cursor(index, (d - 1) as nat) / 2
    }
}

/// The position of the other child of a node's parent.
pub open spec fn flip_pos(c: nat) -> nat {
    if c % 2 == 0 {
        c + 1
    } else {
        (c - 1) as nat
    }
}

/// The sibling path of a leaf, depth by depth, padded where a sibling is
/// missing.
pub open spec fn spec_siblings(lvls: Seq<Seq<Seq<u8>>>, index: nat) -> Seq<Seq<u8>> {
    Seq::new(
        if lvls.len() == 0 {
            0
        } else {
            (lvls.len() - 1) as nat
        },
        |d: int| node_or_empty(lvls[d], flip_pos(spec_cursor(index, d as nat)) as int),
    )
}

/// The root recomputed from a candidate leaf hash, a sibling path, and the
/// cursor's bits: an even cursor stands left, an odd one right.
pub open spec fn path_root_enc(candidate: Seq<u8>, siblings: Seq<Seq<u8>>, cursor: nat) -> Seq<u8>
    decreases siblings.len(),
{
    if siblings.len() == 0 {
        candidate
    } else {
        path_root_enc(
            if cursor % 2 == 0 {
                compress_enc(candidate, siblings[0])
            } else {
                compress_enc(siblings[0], candidate)
            },
            siblings.drop_first(),
            cursor / 2,
        )
    }
}

/// What `verify` accepts: every sibling entry is a canonical field-element
/// encoding and the path root recomputed from the proof's own fields equals
/// the claimed root.
pub open spec fn proof_accepted(p: Proof) -> bool {
    &&& forall|d: int|
        0 <= d < p.siblings@.len() ==> parses_as_field(#[trigger] p.siblings@[d]@)
    &&& path_root_enc(
        absorb_enc(p.value@),
        p.siblings@.map_values(|s: Vec<u8>| s@),
        p.index as nat,
    ) == p.root@
}

impl MerkleTree {
    /// The stored levels, as canonical encodings.
    pub closed spec fn levels(&self) -> Seq<Seq<Seq<u8>>> {
        self.data@.map_values(|lvl: Vec<FieldElement>| lvl@.map_values(|fe: FieldElement| fe@))
    }

    /// The stored raw leaf values.
    pub closed spec fn leaves_view(&self) -> Seq<Seq<u8>> {
        self.leaves@.map_values(|v: Vec<u8>| v@)
    }

    pub open spec fn leaf_count(&self) -> nat {
        self.leaves_view().len()
    }

    /// Every stored node is a canonical field-element encoding.
    pub closed spec fn nodes_parse(&self) -> bool {
        forall|d: int, j: int|
            0 <= d < self.levels().len() && 0 <= j < self.levels()[d].len()
                ==> parses_as_field(#[trigger] self.levels()[d][j])
    }

    /// Well-formed: the stored levels are exactly the tree that the stored
    /// leaves determine.
    pub closed spec fn wf(&self) -> bool {
        &&& self.levels() == tree_levels(leaf_hashes(self.leaves_view()))
        &&& self.nodes_parse()
    }

    /// What `get_proof` returns for a valid index: the query index itself,
    /// the stored value, the sibling path the levels determine, and the root.
    pub open spec fn is_proof_for(&self, p: Proof, index: usize) -> bool {
        &&& p.index == index
        &&& (index as nat) < self.leaf_count()
        &&& p.value@ == self.leaves_view()[index as int]
        &&& p.siblings@.map_values(|s: Vec<u8>| s@) == spec_siblings(
            tree_levels(leaf_hashes(self.leaves_view())),
            index as nat,
        )
        &&& forall|k: int|
            0 <= k < p.siblings@.len() ==> parses_as_field(#[trigger] p.siblings@[k]@)
        &&& p.root@ == root_of(self.leaves_view())
        &&& p.empty == false
    }

    /// An empty tree.
    pub fn new() -> (r: MerkleTree)
        ensures
            r.wf(),
            r.leaf_count() == 0,
    {
        let r = MerkleTree { data: Vec::new(), leaves: Vec::new() };
        proof {
            assert(r.levels() =~= Seq::<Seq<Seq<u8>>>::empty());
            assert(r.leaves_view() =~= Seq::<Seq<u8>>::empty());
        }
        r
    }

    fn get_height(&self) -> (h: usize)
        ensures
            h as nat == spec_height(self.leaf_count()),
    {
        let n = self.leaves.len();
        proof {
            lemma_spec_height_le(n as nat);
        }
        let mut m = n;
        let mut h: usize = 0;
        while m > 1
            invariant
                spec_height(n as nat) == h + spec_height(m as nat),
                h <= spec_height(n as nat),
                spec_height(n as nat) <= n,
            decreases m,
        {
            m = 1 + (m - 1) / 2;
            h = h + 1;
        }
        h
    }
}

proof fn lemma_spec_height_le(n: nat)
    ensures
        spec_height(n) <= n,
        n >= 2 ==> spec_height(n) < n,
    decreases n,
{
    if n > 1 {
        lemma_spec_height_le((n + 1) / 2);
    }
}

proof fn lemma_levels_above_props(l0: Seq<Seq<u8>>)
    requires
        l0.len() >= 1,
    ensures
        levels_above(l0).len() == spec_height(l0.len()) + 1,
        levels_above(l0)[0] == l0,
        forall|d: int|
            1 <= d < levels_above(l0).len()
                ==> #[trigger] levels_above(l0)[d] == parent_level(levels_above(l0)[d - 1]),
        forall|d: int|
            0 <= d < levels_above(l0).len() ==> 1 <= #[trigger] levels_above(l0)[d].len()
                <= l0.len(),
        levels_above(l0).last().len() == 1,
    decreases l0.len(),
{
    if l0.len() == 1 {
        assert(levels_above(l0) == seq![l0]);
    } else {
        let pa = parent_level(l0);
        assert(1 <= pa.len() < l0.len());
        lemma_levels_above_props(pa);
        let whole = levels_above(l0);
        assert(whole == seq![l0] + levels_above(pa));
        assert forall|d: int|
            1 <= d < whole.len() implies #[trigger] whole[d] == parent_level(whole[d - 1]) by {
            assert(whole[d] == levels_above(pa)[d - 1]);
            if d == 1 {
                assert(levels_above(pa)[0] == pa);
            } else {
                assert(whole[d - 1] == levels_above(pa)[d - 2]);
            }
        }
        assert forall|d: int|
            0 <= d < whole.len() implies 1 <= #[trigger] whole[d].len() <= l0.len() by {
            if d >= 1 {
                assert(whole[d] == levels_above(pa)[d - 1]);
            }
        }
        assert(whole.last() == levels_above(pa).last());
    }
}

proof fn lemma_cursor_shift(i: nat, k: nat)
    requires
        k >= 1,
    ensures
        spec_cursor(i, k) == spec_cursor(i / 2, (k - 1) as nat),
    decreases k,
{
    if k == 1 {
        assert(spec_cursor(i, 1) == spec_cursor(i, 0) / 2);
        assert(spec_cursor(i / 2, 0) == i / 2);
    } else {
        lemma_cursor_shift(i, (k - 1) as nat);
        assert(spec_cursor(i, k) == spec_cursor(i, (k - 1) as nat) / 2);
        assert(spec_cursor(i / 2, (k - 1) as nat) == spec_cursor(i / 2, (k - 2) as nat) / 2);
    }
}

proof fn lemma_cursor_lt(l0: Seq<Seq<u8>>, index: nat, d: nat)
    requires
        l0.len() >= 1,
        index < l0.len(),
        d < levels_above(l0).len(),
    ensures
        spec_cursor(index, d) < levels_above(l0)[d as int].len(),
    decreases d,
{
    lemma_levels_above_props(l0);
    if d > 0 {
        lemma_cursor_lt(l0, index, (d - 1) as nat);
        let lprev = levels_above(l0)[d - 1];
        assert(levels_above(l0)[d as int] == parent_level(lprev));
        let c = spec_cursor(index, (d - 1) as nat);
        assert(c < lprev.len());
        assert((lprev.len() - 1) / 2 + 1 == (lprev.len() + 1) / 2);
        assert(c / 2 < (lprev.len() + 1) / 2);
    }
}

proof fn lemma_parent_one_diff(a: Seq<Seq<u8>>, b: Seq<Seq<u8>>, c: int)
    requires
        a.len() == b.len(),
        a.len() >= 1,
        0 <= c < a.len(),
        forall|j: int| 0 <= j < a.len() && j != c ==> a[j] == b[j],
    ensures
        parent_level(a).len() == parent_level(b).len(),
        forall|p: int|
            0 <= p < parent_level(a).len() && p != c / 2 ==> #[trigger] parent_level(a)[p]
                == parent_level(b)[p],
{
    assert forall|p: int|
        0 <= p < parent_level(a).len() && p != c / 2 implies #[trigger] parent_level(a)[p]
        == parent_level(b)[p] by {
        assert(c == 2 * (c / 2) + c % 2);
        assert(2 * p != c && 2 * p + 1 != c);
        assert(node_or_empty(a, 2 * p) == node_or_empty(b, 2 * p));
        assert(node_or_empty(a, 2 * p + 1) == node_or_empty(b, 2 * p + 1));
    }
}

proof fn lemma_update_levels_shape(a: Seq<Seq<u8>>, c: int, x: Seq<u8>)
    requires
        a.len() >= 1,
        0 <= c < a.len(),
    ensures
        levels_above(a.update(c, x)).len() == levels_above(a).len(),
        forall|k: int|
            0 <= k < levels_above(a).len() ==> #[trigger] levels_above(a.update(c, x))[k].len()
                == levels_above(a)[k].len(),
        forall|k: int, j: int|
            0 <= k < levels_above(a).len() && 0 <= j < levels_above(a)[k].len() && j
                != spec_cursor(c as nat, k as nat) ==> levels_above(a.update(c, x))[k][j]
                == #[trigger] levels_above(a)[k][j],
    decreases a.len(),
{
    let b = a.update(c, x);
    assert(b.len() == a.len());
    lemma_levels_above_props(a);
    lemma_levels_above_props(b);
    if a.len() == 1 {
        assert(levels_above(a) == seq![a]);
        assert(levels_above(b) == seq![b]);
    } else {
        let pa = parent_level(a);
        let pb = parent_level(b);
        assert(levels_above(a) == seq![a] + levels_above(pa));
        assert(levels_above(b) == seq![b] + levels_above(pb));
        lemma_parent_one_diff(a, b, c);
        assert(0 <= c / 2 < pa.len()) by {
            assert((a.len() - 1) / 2 + 1 == (a.len() + 1) / 2);
        }
        assert(pb =~= pa.update(c / 2, pb[c / 2]));
        lemma_update_levels_shape(pa, c / 2, pb[c / 2]);
        assert forall|k: int, j: int|
            0 <= k < levels_above(a).len() && 0 <= j < levels_above(a)[k].len() && j
                != spec_cursor(c as nat, k as nat) implies levels_above(b)[k][j]
            == #[trigger] levels_above(a)[k][j] by {
            if k == 0 {
                assert(levels_above(a)[0] == a && levels_above(b)[0] == b);
                assert(spec_cursor(c as nat, 0) == c);
            } else {
                assert(levels_above(a)[k] == levels_above(pa)[k - 1]);
                assert(levels_above(b)[k] == levels_above(pb)[k - 1]);
                lemma_cursor_shift(c as nat, k as nat);
                assert(spec_cursor(c as nat, k as nat) == spec_cursor(
                    (c / 2) as nat,
                    (k - 1) as nat,
                ));
            }
        }
        assert forall|k: int|
            0 <= k < levels_above(a).len() implies #[trigger] levels_above(b)[k].len()
            == levels_above(a)[k].len() by {
            if k >= 1 {
                assert(levels_above(a)[k] == levels_above(pa)[k - 1]);
                assert(levels_above(b)[k] == levels_above(pb)[k - 1]);
            }
        }
    }
}

proof fn lemma_spec_height_adjacent(n: nat)
    requires
        n >= 1,
    ensures
        spec_height(n) <= spec_height(n + 1) <= spec_height(n) + 1,
    decreases n,
{
    if n >= 2 {
        lemma_spec_height_adjacent((n + 1) / 2);
        assert(spec_height(n) == 1 + spec_height((n + 1) / 2));
        assert(spec_height(n + 1) == 1 + spec_height((n + 2) / 2));
        if (n + 2) / 2 == (n + 1) / 2 + 1 {
        } else {
            assert((n + 2) / 2 == (n + 1) / 2);
        }
    }
}

proof fn lemma_cursor_adjacent(n: nat, k: nat)
    requires
        n >= 1,
    ensures
        spec_cursor((n - 1) as nat, k) <= spec_cursor(n, k) <= spec_cursor((n - 1) as nat, k) + 1,
    decreases k,
{
    if k > 0 {
        lemma_cursor_adjacent(n, (k - 1) as nat);
    }
}

proof fn lemma_level_len_cursor(l0: Seq<Seq<u8>>)
    requires
        l0.len() >= 1,
    ensures
        forall|k: int|
            0 <= k < levels_above(l0).len() ==> #[trigger] levels_above(l0)[k].len()
                == spec_cursor((l0.len() - 1) as nat, k as nat) + 1,
    decreases l0.len(),
{
    lemma_levels_above_props(l0);
    if l0.len() == 1 {
        assert(levels_above(l0) == seq![l0]);
        assert(spec_cursor(0, 0) == 0);
    } else {
        let n = l0.len();
        let pa = parent_level(l0);
        lemma_level_len_cursor(pa);
        assert(levels_above(l0) == seq![l0] + levels_above(pa));
        assert forall|k: int|
            0 <= k < levels_above(l0).len() implies #[trigger] levels_above(l0)[k].len()
            == spec_cursor((n - 1) as nat, k as nat) + 1 by {
            if k == 0 {
                assert(spec_cursor((n - 1) as nat, 0) == n - 1);
            } else {
                assert(levels_above(l0)[k] == levels_above(pa)[k - 1]);
                lemma_cursor_shift((n - 1) as nat, k as nat);
                assert(pa.len() - 1 == (n - 1) as nat / 2);
            }
        }
    }
}

proof fn lemma_parent_of_push_even(a: Seq<Seq<u8>>, x: Seq<u8>)
    requires
        a.len() >= 2,
        a.len() % 2 == 0,
    ensures
        parent_level(a.push(x)) == parent_level(a).push(compress_enc(x, empty_hash_enc())),
{
    let n = a.len();
    let b = a.push(x);
    let pa = parent_level(a);
    let pb = parent_level(b);
    let y = compress_enc(x, empty_hash_enc());
    assert(pb.len() == (n + 2) / 2 && pa.len() == (n + 1) / 2);
    assert forall|p: int| 0 <= p < pb.len() implies pb[p] == pa.push(y)[p] by {
        assert(pb[p] == compress_enc(node_or_empty(b, 2 * p), node_or_empty(b, 2 * p + 1)));
        if p < pa.len() {
            assert(2 * p + 1 < n);
            assert(node_or_empty(b, 2 * p) == node_or_empty(a, 2 * p));
            assert(node_or_empty(b, 2 * p + 1) == node_or_empty(a, 2 * p + 1));
        } else {
            assert(p == n / 2);
            assert(node_or_empty(b, 2 * p) == x);
            assert(node_or_empty(b, 2 * p + 1) == empty_hash_enc());
        }
    }
    assert(pb =~= pa.push(y));
}

proof fn lemma_parent_of_push_odd(a: Seq<Seq<u8>>, x: Seq<u8>)
    requires
        a.len() >= 2,
        a.len() % 2 == 1,
    ensures
        parent_level(a.push(x)) == parent_level(a).update(
            a.len() as int / 2,
            compress_enc(a.last(), x),
        ),
{
    let n = a.len();
    let b = a.push(x);
    let pa = parent_level(a);
    let pb = parent_level(b);
    let y = compress_enc(a.last(), x);
    assert(pb.len() == (n + 2) / 2 && pa.len() == (n + 1) / 2);
    assert((n + 2) / 2 == (n + 1) / 2);
    assert forall|p: int| 0 <= p < pb.len() implies pb[p] == pa.update(n as int / 2, y)[p] by {
        assert(pb[p] == compress_enc(node_or_empty(b, 2 * p), node_or_empty(b, 2 * p + 1)));
        assert(pa[p] == compress_enc(node_or_empty(a, 2 * p), node_or_empty(a, 2 * p + 1)));
        if p < n as int / 2 {
            assert(2 * p + 1 < n - 1);
            assert(node_or_empty(b, 2 * p) == node_or_empty(a, 2 * p));
            assert(node_or_empty(b, 2 * p + 1) == node_or_empty(a, 2 * p + 1));
        } else {
            assert(p == n as int / 2);
            assert(2 * p == n - 1 && 2 * p + 1 == n);
            assert(node_or_empty(b, 2 * p) == a[n - 1]);
            assert(node_or_empty(b, 2 * p + 1) == x);
        }
    }
    assert(pb =~= pa.update(n as int / 2, y));
}

#[verifier::rlimit(100)]
proof fn lemma_append_levels_agree(a: Seq<Seq<u8>>, x: Seq<u8>)
    requires
        a.len() >= 1,
    ensures
        forall|k: int, j: int|
            0 <= k < levels_above(a).len() && 0 <= j < spec_cursor(a.len(), k as nat)
                && j < levels_above(a)[k].len() ==> levels_above(a.push(x))[k][j]
                == #[trigger] levels_above(a)[k][j],
    decreases a.len(),
{
    let n = a.len();
    let b = a.push(x);
    lemma_levels_above_props(a);
    lemma_levels_above_props(b);
    if n == 1 {
        assert(levels_above(a) == seq![a]);
        assert(levels_above(b)[0] == b);
    } else {
        let pa = parent_level(a);
        let pb = parent_level(b);
        assert(levels_above(a) == seq![a] + levels_above(pa));
        assert(levels_above(b) == seq![b] + levels_above(pb));
        if n % 2 == 0 {
            let y = compress_enc(x, empty_hash_enc());
            lemma_parent_of_push_even(a, x);
            lemma_append_levels_agree(pa, y);
            lemma_levels_above_props(pa);
            lemma_levels_above_props(pb);
            lemma_spec_height_adjacent(pa.len());
            assert(pb.len() == pa.len() + 1);
            assert(levels_above(pb).len() >= levels_above(pa).len());
            assert forall|k: int, j: int|
                0 <= k < levels_above(a).len() && 0 <= j < spec_cursor(n, k as nat) && j
                    < levels_above(a)[k].len() implies levels_above(b)[k][j]
                == #[trigger] levels_above(a)[k][j] by {
                if k == 0 {
                    assert(levels_above(a)[0] == a && levels_above(b)[0] == b);
                } else {
                    lemma_cursor_shift(n, k as nat);
                    assert(levels_above(a)[k] == levels_above(pa)[k - 1]);
                    assert(levels_above(b)[k] == levels_above(pb)[k - 1]);
                    assert(pb == pa.push(y));
                    assert(pa.len() == n / 2);
                    assert(j < spec_cursor(pa.len(), (k - 1) as nat));
                    assert(j < levels_above(pa)[k - 1].len());
                    assert(levels_above(pa.push(y))[k - 1][j] == levels_above(pa)[k - 1][j]);
                }
            }
        } else {
            let y = compress_enc(a.last(), x);
            lemma_parent_of_push_odd(a, x);
            lemma_update_levels_shape(pa, n as int / 2, y);
            lemma_levels_above_props(pa);
            lemma_levels_above_props(pb);
            assert(pb.len() == pa.len());
            assert(levels_above(pb).len() == levels_above(pa).len());
            assert forall|k: int, j: int|
                0 <= k < levels_above(a).len() && 0 <= j < spec_cursor(n, k as nat) && j
                    < levels_above(a)[k].len() implies levels_above(b)[k][j]
                == #[trigger] levels_above(a)[k][j] by {
                if k == 0 {
                    assert(levels_above(a)[0] == a && levels_above(b)[0] == b);
                } else {
                    lemma_cursor_shift(n, k as nat);
                    assert(levels_above(a)[k] == levels_above(pa)[k - 1]);
                    assert(levels_above(b)[k] == levels_above(pb)[k - 1]);
                    assert(pb == pa.update(n as int / 2, y));
                    assert(spec_cursor(n as nat / 2, (k - 1) as nat) == spec_cursor(n, k as nat));
                    assert(j != spec_cursor((n as int / 2) as nat, (k - 1) as nat));
                    assert(j < levels_above(pa)[k - 1].len());
                    assert(levels_above(pa.update(n as int / 2, y))[k - 1][j] == levels_above(
                        pa,
                    )[k - 1][j]);
                }
            }
        }
    }
}

proof fn lemma_parse_after_level_push(
    pre: Seq<Seq<Seq<u8>>>,
    post: Seq<Seq<Seq<u8>>>,
    d: int,
    node: Seq<u8>,
)
    requires
        0 <= d < pre.len(),
        post == pre.update(d, pre[d].push(node)),
        parses_as_field(node),
        forall|k: int, j: int|
            0 <= k < pre.len() && 0 <= j < pre[k].len() ==> parses_as_field(#[trigger] pre[k][j]),
    ensures
        forall|k: int, j: int|
            0 <= k < post.len() && 0 <= j < post[k].len() ==> parses_as_field(
                #[trigger] post[k][j],
            ),
{
    assert forall|k: int, j: int|
        0 <= k < post.len() && 0 <= j < post[k].len() implies parses_as_field(
        #[trigger] post[k][j],
    ) by {
        if k == d {
            if j < pre[d].len() {
                assert(post[k][j] == pre[k][j]);
            }
        } else {
            assert(post[k] == pre[k]);
        }
    }
}

proof fn lemma_path_from(l0: Seq<Seq<u8>>, index: nat, d: nat)
    requires
        l0.len() >= 1,
        index < l0.len(),
        d < levels_above(l0).len(),
    ensures
        path_root_enc(
            levels_above(l0)[d as int][spec_cursor(index, d) as int],
            spec_siblings(levels_above(l0), index).skip(d as int),
            spec_cursor(index, d),
        ) == levels_above(l0).last()[0],
    decreases levels_above(l0).len() - d,
{
    let lvls = levels_above(l0);
    let sibs = spec_siblings(lvls, index);
    let c = spec_cursor(index, d);
    lemma_levels_above_props(l0);
    lemma_cursor_lt(l0, index, d);
    if d == lvls.len() - 1 {
        assert(lvls[d as int].len() == 1);
        assert(c == 0);
        assert(sibs.skip(d as int) =~= Seq::<Seq<u8>>::empty());
        assert(lvls[d as int] == lvls.last());
    } else {
        lemma_cursor_lt(l0, index, (d + 1) as nat);
        let rest = sibs.skip(d as int);
        assert(rest[0] == sibs[d as int]);
        assert(sibs[d as int] == node_or_empty(lvls[d as int], flip_pos(c) as int));
        assert(rest.drop_first() =~= sibs.skip(d as int + 1));
        assert(lvls[d + 1 as int] == parent_level(lvls[d as int]));
        let p = c / 2;
        assert(spec_cursor(index, (d + 1) as nat) == p);
        assert(p < lvls[d + 1 as int].len());
        assert(lvls[d + 1 as int][p as int] == compress_enc(
            node_or_empty(lvls[d as int], 2 * p as int),
            node_or_empty(lvls[d as int], 2 * p as int + 1),
        ));
        assert(c == 2 * (c / 2) + c % 2);
        if c % 2 == 0 {
            assert(2 * p == c && 2 * p + 1 == flip_pos(c));
            assert(node_or_empty(lvls[d as int], c as int) == lvls[d as int][c as int]);
            assert(path_root_enc(lvls[d as int][c as int], rest, c) == path_root_enc(
                lvls[d + 1 as int][p as int],
                rest.drop_first(),
                p,
            ));
        } else {
            assert(2 * p == flip_pos(c) && 2 * p + 1 == c);
            assert(node_or_empty(lvls[d as int], c as int) == lvls[d as int][c as int]);
            assert(path_root_enc(lvls[d as int][c as int], rest, c) == path_root_enc(
                lvls[d + 1 as int][p as int],
                rest.drop_first(),
                p,
            ));
        }
        lemma_path_from(l0, index, (d + 1) as nat);
    }
}

proof fn lemma_node_value(l0: Seq<Seq<u8>>, d: int, p: int)
    requires
        l0.len() >= 1,
        1 <= d < levels_above(l0).len(),
        0 <= p < levels_above(l0)[d].len(),
    ensures
        levels_above(l0)[d][p] == compress_enc(
            node_or_empty(levels_above(l0)[d - 1], 2 * p),
            node_or_empty(levels_above(l0)[d - 1], 2 * p + 1),
        ),
{
    lemma_levels_above_props(l0);
    assert(levels_above(l0)[d] == parent_level(levels_above(l0)[d - 1]));
}

proof fn lemma_levels_step(
    lvls_old: Seq<Seq<Seq<u8>>>,
    lvls_new: Seq<Seq<Seq<u8>>>,
    pre: Seq<Seq<Seq<u8>>>,
    post: Seq<Seq<Seq<u8>>>,
    index: nat,
    d: int,
    p: int,
    node: Seq<u8>,
    height: int,
)
    requires
        height >= 0,
        lvls_old.len() == height + 1,
        lvls_new.len() == height + 1,
        pre.len() == height + 1,
        forall|k: int| 0 <= k <= height ==> #[trigger] lvls_new[k].len() == lvls_old[k].len(),
        forall|k: int| 0 <= k < d ==> #[trigger] pre[k] == lvls_new[k],
        forall|k: int| d <= k <= height ==> #[trigger] pre[k] == lvls_old[k],
        0 <= d <= height,
        p == spec_cursor(index, d as nat),
        0 <= p < lvls_new[d].len(),
        node == lvls_new[d][p],
        forall|j: int|
            0 <= j < lvls_old[d].len() && j != spec_cursor(index, d as nat)
                ==> lvls_new[d][j] == #[trigger] lvls_old[d][j],
        post == pre.update(d, pre[d].update(p, node)),
    ensures
        post.len() == height + 1,
        forall|k: int| 0 <= k < d + 1 ==> #[trigger] post[k] == lvls_new[k],
        forall|k: int| d + 1 <= k <= height ==> #[trigger] post[k] == lvls_old[k],
{
    assert(post[d] =~= lvls_new[d]) by {
        assert(pre[d] == lvls_old[d]);
        assert forall|j: int| 0 <= j < lvls_new[d].len() implies post[d][j] == lvls_new[d][j] by {
            if j != p {
                assert(lvls_new[d][j] == lvls_old[d][j]);
            }
        }
    }
    assert forall|k: int| 0 <= k < d + 1 implies #[trigger] post[k] == lvls_new[k] by {
        if k < d {
            assert(post[k] == pre[k]);
        }
    }
}

proof fn lemma_parse_after_set(
    pre: Seq<Seq<Seq<u8>>>,
    post: Seq<Seq<Seq<u8>>>,
    d: int,
    p: int,
    node: Seq<u8>,
)
    requires
        0 <= d < pre.len(),
        0 <= p < pre[d].len(),
        post == pre.update(d, pre[d].update(p, node)),
        parses_as_field(node),
        forall|k: int, j: int|
            0 <= k < pre.len() && 0 <= j < pre[k].len() ==> parses_as_field(#[trigger] pre[k][j]),
    ensures
        forall|k: int, j: int|
            0 <= k < post.len() && 0 <= j < post[k].len() ==> parses_as_field(
                #[trigger] post[k][j],
            ),
{
    assert forall|k: int, j: int|
        0 <= k < post.len() && 0 <= j < post[k].len() implies parses_as_field(
        #[trigger] post[k][j],
    ) by {
        if k == d && j == p {
        } else if k == d {
            assert(post[k][j] == pre[k][j]);
        } else {
            assert(post[k] == pre[k]);
        }
    }
}

impl MerkleTree {
    fn set_node(&mut self, d: usize, p: usize, fe: FieldElement)
        requires
            d < old(self).data@.len(),
            p < old(self).data@[d as int]@.len(),
        ensures
            final(self).leaves@ == old(self).leaves@,
            final(self).levels() == old(self).levels().update(
                d as int,
                old(self).levels()[d as int].update(p as int, fe@),
            ),
    {
        self.data[d][p] = fe;
        proof {
            let lo = old(self).levels();
            let ln = self.levels();
            assert(ln[d as int] =~= lo[d as int].update(p as int, fe@));
            assert(ln =~= lo.update(d as int, lo[d as int].update(p as int, fe@)));
        }
    }

    fn push_node_at(&mut self, d: usize, fe: FieldElement)
        requires
            d < old(self).data@.len(),
        ensures
            final(self).leaves@ == old(self).leaves@,
            final(self).levels() == old(self).levels().update(
                d as int,
                old(self).levels()[d as int].push(fe@),
            ),
    {
        let lvl = &mut self.data[d];
        lvl.push(fe);
        proof {
            let lo = old(self).levels();
            let ln = self.levels();
            assert(ln[d as int] =~= lo[d as int].push(fe@));
            assert(ln =~= lo.update(d as int, lo[d as int].push(fe@)));
        }
    }

    fn push_new_level(&mut self, fe: FieldElement)
        ensures
            final(self).leaves@ == old(self).leaves@,
            final(self).levels() == old(self).levels().push(seq![fe@]),
    {
        let mut lvl: Vec<FieldElement> = Vec::new();
        lvl.push(fe);
        self.data.push(lvl);
        proof {
            let lo = old(self).levels();
            let ln = self.levels();
            assert(ln[lo.len() as int] =~= seq![fe@]);
            assert(ln =~= lo.push(seq![fe@]));
        }
    }

    fn node_or_pad(&self, d: usize, k: usize) -> (r: FieldElement)
        requires
            d < self.data@.len(),
            forall|j: int|
                0 <= j < self.levels()[d as int].len() ==> parses_as_field(
                    #[trigger] self.levels()[d as int][j],
                ),
        ensures
            r@ == node_or_empty(self.levels()[d as int], k as int),
            parses_as_field(r@),
    {
        let lvl_len = self.data[d].len();
        proof {
            assert(self.levels()[d as int].len() == self.data@[d as int]@.len());
        }
        if k < lvl_len {
            let fe = self.data[d][k];
            proof {
                assert(fe@ == self.levels()[d as int][k as int]);
            }
            fe
        } else {
            empty_hash()
        }
    }

    #[verifier::rlimit(100)]
    fn update(&mut self, index: usize, value: Vec<u8>)
        requires
            old(self).wf(),
            index < old(self).leaf_count(),
        ensures
            final(self).wf(),
            final(self).leaves_view() == old(self).leaves_view().update(index as int, value@),
    {
        let ghost v_view = value@;
        let ghost l0_old = leaf_hashes(old(self).leaves_view());
        let ghost v_enc = absorb_enc(value@);
        let ghost l0_new = l0_old.update(index as int, v_enc);
        let ghost lvls_old = levels_above(l0_old);
        let ghost lvls_new = levels_above(l0_new);
        let ghost n = l0_old.len();
        let n_exec = self.leaves.len();
        proof {
            assert(n == n_exec as nat);
            lemma_spec_height_le(n);
            lemma_levels_above_props(l0_old);
            lemma_levels_above_props(l0_new);
            lemma_update_levels_shape(l0_old, index as int, v_enc);
        }
        let h = absorb(value.as_slice());
        self.leaves[index] = value;
        proof {
            assert(leaf_hashes(self.leaves_view()) =~= l0_new);
            assert(self.leaves_view() =~= old(self).leaves_view().update(index as int, v_view));
            assert(self.levels() =~= old(self).levels());
        }
        let height = self.get_height();
        proof {
            assert(lvls_old.len() == height + 1);
            assert(self.levels().len() == height + 1);
            lemma_cursor_lt(l0_new, index as nat, 0);
            assert(self.levels()[0].len() == self.data@[0]@.len());
        }
        let ghost pre0 = self.levels();
        self.set_node(0, index, h);
        proof {
            assert(lvls_new[0] == l0_new && lvls_old[0] == l0_old);
            lemma_levels_step(
                lvls_old,
                lvls_new,
                pre0,
                self.levels(),
                index as nat,
                0,
                index as int,
                v_enc,
                height as int,
            );
            lemma_parse_after_set(pre0, self.levels(), 0, index as int, v_enc);
        }
        let mut cursor = index;
        let mut d: usize = 1;
        while d <= height
            invariant
                1 <= d <= height + 1,
                n == l0_old.len(),
                1 <= n <= usize::MAX,
                spec_height(n) < n || n == 1,
                index < n,
                height as nat == spec_height(n),
                l0_old == leaf_hashes(old(self).leaves_view()),
                v_enc == absorb_enc(v_view),
                l0_new == l0_old.update(index as int, v_enc),
                lvls_old == levels_above(l0_old),
                lvls_new == levels_above(l0_new),
                lvls_old.len() == height + 1,
                lvls_new.len() == height + 1,
                forall|k: int| 0 <= k < lvls_old.len() ==> 1 <= #[trigger] lvls_old[k].len() <= n,
                forall|k: int| 0 <= k < lvls_old.len() ==> #[trigger] lvls_new[k].len()
                    == lvls_old[k].len(),
                forall|k: int, j: int|
                    0 <= k < lvls_old.len() && 0 <= j < lvls_old[k].len() && j != spec_cursor(
                        index as nat,
                        k as nat,
                    ) ==> lvls_new[k][j] == #[trigger] lvls_old[k][j],
                cursor as nat == spec_cursor(index as nat, (d - 1) as nat),
                self.leaves_view() == old(self).leaves_view().update(index as int, v_view),
                self.levels().len() == height + 1,
                self.data@.len() == height + 1,
                forall|k: int| 0 <= k < d ==> #[trigger] self.levels()[k] == lvls_new[k],
                forall|k: int| d <= k <= height ==> #[trigger] self.levels()[k] == lvls_old[k],
                forall|k: int, j: int|
                    0 <= k < self.levels().len() && 0 <= j < self.levels()[k].len()
                        ==> parses_as_field(#[trigger] self.levels()[k][j]),
            decreases height + 1 - d,
        {
            let p = cursor / 2;
            proof {
                lemma_cursor_lt(l0_new, index as nat, (d - 1) as nat);
                lemma_cursor_lt(l0_new, index as nat, d as nat);
                assert(spec_cursor(index as nat, d as nat) == p);
                assert(cursor < lvls_new[d - 1].len());
                assert(p < lvls_new[d as int].len());
                assert(self.levels()[d - 1] == lvls_new[d - 1]);
            }
            let left = self.node_or_pad(d - 1, 2 * p);
            let right = self.node_or_pad(d - 1, 2 * p + 1);
            let node = compress(&left, &right);
            proof {
                lemma_node_value(l0_new, d as int, p as int);
                assert(node@ == lvls_new[d as int][p as int]);
            }
            let ghost pre = self.levels();
            proof {
                assert(self.levels()[d as int].len() == self.data@[d as int]@.len());
                assert(self.levels()[d as int] == lvls_old[d as int]);
                assert(p < self.data@[d as int]@.len());
            }
            self.set_node(d, p, node);
            proof {
                lemma_levels_step(
                    lvls_old,
                    lvls_new,
                    pre,
                    self.levels(),
                    index as nat,
                    d as int,
                    p as int,
                    node@,
                    height as int,
                );
                lemma_parse_after_set(pre, self.levels(), d as int, p as int, node@);
            }
            cursor = p;
            d = d + 1;
        }
        proof {
            assert(self.levels() =~= lvls_new);
            assert(tree_levels(leaf_hashes(self.leaves_view())) == lvls_new);
        }
    }

    #[verifier::rlimit(100)]
    fn push_node(&mut self, value: Vec<u8>)
        requires
            old(self).wf(),
            old(self).leaf_count() < usize::MAX,
        ensures
            final(self).wf(),
            final(self).leaves_view() == old(self).leaves_view().push(value@),
    {
        let ghost v_view = value@;
        let ghost l0_old = leaf_hashes(old(self).leaves_view());
        let ghost v_enc = absorb_enc(value@);
        let ghost l0_new = l0_old.push(v_enc);
        let ghost n = l0_old.len();
        let h = absorb(value.as_slice());
        let n_exec = self.leaves.len();
        self.leaves.push(value);
        proof {
            assert(n == n_exec as nat);
            assert(leaf_hashes(self.leaves_view()) =~= l0_new);
            assert(self.leaves_view() =~= old(self).leaves_view().push(v_view));
            assert(self.levels() == old(self).levels());
        }
        if n_exec == 0 {
            let mut lvl0: Vec<FieldElement> = Vec::new();
            lvl0.push(h);
            self.data.push(lvl0);
            proof {
                assert(l0_new =~= seq![v_enc]);
                assert(levels_above(l0_new) == seq![l0_new]);
                assert(self.levels().len() == 1);
                assert(self.levels()[0] =~= l0_new);
                assert(self.levels() =~= levels_above(l0_new));
                assert forall|k: int, j: int|
                    0 <= k < self.levels().len() && 0 <= j < self.levels()[k].len()
                        implies parses_as_field(#[trigger] self.levels()[k][j]) by {
                    assert(self.levels()[k][j] == h@);
                }
            }
            return;
        }
        let ghost lvls_old = levels_above(l0_old);
        let ghost lvls_new = levels_above(l0_new);
        proof {
            lemma_levels_above_props(l0_old);
            lemma_levels_above_props(l0_new);
            lemma_level_len_cursor(l0_old);
            lemma_level_len_cursor(l0_new);
            lemma_append_levels_agree(l0_old, v_enc);
            lemma_spec_height_adjacent(n);
            lemma_spec_height_le(n + 1);
            assert(l0_new.len() - 1 == n);
            assert(lvls_new[0].len() == spec_cursor(n, 0) + 1);
        }
        let ghost pre0 = self.levels();
        self.push_node_at(0, h);
        proof {
            assert(self.levels()[0] =~= lvls_new[0]) by {
                assert(pre0[0] == lvls_old[0]);
                assert(lvls_old[0] == l0_old && lvls_new[0] == l0_new);
            }
            lemma_parse_after_level_push(pre0, self.levels(), 0, v_enc);
            assert forall|k: int| 1 <= k < lvls_old.len() implies #[trigger] self.levels()[k]
                == lvls_old[k] by {
                assert(self.levels()[k] == pre0[k]);
            }
        }
        let height_new = self.get_height();
        let mut cursor = n_exec;
        let mut d: usize = 1;
        while d <= height_new
            invariant
                1 <= d <= height_new + 1,
                n == l0_old.len(),
                1 <= n < usize::MAX,
                v_enc == absorb_enc(v_view),
                l0_new == l0_old.push(v_enc),
                lvls_old == levels_above(l0_old),
                lvls_new == levels_above(l0_new),
                lvls_old.len() == spec_height(n) + 1,
                lvls_new.len() == spec_height(n + 1) + 1,
                lvls_old.len() <= lvls_new.len() <= lvls_old.len() + 1,
                height_new as nat == spec_height(n + 1),
                spec_height(n + 1) <= n,
                forall|k: int|
                    0 <= k < lvls_new.len() ==> #[trigger] lvls_new[k].len() == spec_cursor(
                        n,
                        k as nat,
                    ) + 1,
                forall|k: int|
                    0 <= k < lvls_old.len() ==> #[trigger] lvls_old[k].len() == spec_cursor(
                        (n - 1) as nat,
                        k as nat,
                    ) + 1,
                forall|k: int, j: int|
                    0 <= k < lvls_old.len() && 0 <= j < spec_cursor(n, k as nat) && j < lvls_old[k].len()
                        ==> lvls_new[k][j] == #[trigger] lvls_old[k][j],
                cursor as nat == spec_cursor(n, (d - 1) as nat),
                self.leaves_view() == old(self).leaves_view().push(v_view),
                d <= lvls_new.len() - 1 ==> self.levels().len() == lvls_old.len(),
                d > lvls_new.len() - 1 ==> self.levels().len() == lvls_new.len(),
                self.data@.len() == self.levels().len(),
                forall|k: int| 0 <= k < d ==> #[trigger] self.levels()[k] == lvls_new[k],
                forall|k: int|
                    d <= k < lvls_old.len() ==> #[trigger] self.levels()[k] == lvls_old[k],
                forall|k: int, j: int|
                    0 <= k < self.levels().len() && 0 <= j < self.levels()[k].len()
                        ==> parses_as_field(#[trigger] self.levels()[k][j]),
            decreases height_new + 1 - d,
        {
            let p = cursor / 2;
            proof {
                assert(spec_cursor(n, d as nat) == p);
                assert(p < lvls_new[d as int].len());
                assert(self.levels()[d - 1] == lvls_new[d - 1]);
                assert(forall|j: int|
                    0 <= j < self.levels()[d - 1].len() ==> parses_as_field(
                        #[trigger] self.levels()[d - 1][j],
                    ));
            }
            let left = self.node_or_pad(d - 1, 2 * p);
            let right = self.node_or_pad(d - 1, 2 * p + 1);
            let node = compress(&left, &right);
            proof {
                lemma_node_value(l0_new, d as int, p as int);
                assert(node@ == lvls_new[d as int][p as int]);
            }
            let ghost pre = self.levels();
            if d == self.data.len() {
                proof {
                    lemma_levels_above_props(l0_new);
                    assert(self.levels().len() == lvls_old.len());
                    assert(d == lvls_old.len());
                    assert(lvls_new.len() == lvls_old.len() + 1);
                    assert(d == lvls_new.len() - 1);
                    assert(lvls_new.last().len() == 1);
                    assert(lvls_new[d as int].len() == 1);
                    assert(p == 0);
                }
                self.push_new_level(node);
                proof {
                    assert(self.levels()[d as int] =~= lvls_new[d as int]);
                    assert forall|k: int, j: int|
                        0 <= k < self.levels().len() && 0 <= j < self.levels()[k].len()
                            implies parses_as_field(#[trigger] self.levels()[k][j]) by {
                        if k < pre.len() {
                            assert(self.levels()[k] == pre[k]);
                        } else {
                            assert(self.levels()[k][j] == node@);
                        }
                    }
                }
            } else {
                let lvl_len = self.data[d].len();
                proof {
                    assert(self.levels()[d as int].len() == self.data@[d as int]@.len());
                    assert(self.levels()[d as int] == lvls_old[d as int]);
                    assert(lvl_len as nat == lvls_old[d as int].len());
                    lemma_cursor_adjacent(n, d as nat);
                }
                if p == lvl_len {
                    self.push_node_at(d, node);
                    proof {
                        assert(self.levels()[d as int] =~= lvls_new[d as int]) by {
                            assert(lvls_old[d as int].len() == p);
                            assert(lvls_new[d as int].len() == p + 1);
                            assert forall|j: int|
                                0 <= j < lvls_new[d as int].len()
                                    implies self.levels()[d as int][j] == lvls_new[d as int][j] by {
                                if j < p {
                                    assert(lvls_new[d as int][j] == lvls_old[d as int][j]);
                                }
                            }
                        }
                        lemma_parse_after_level_push(pre, self.levels(), d as int, node@);
                    }
                } else {
                    proof {
                        assert(p < lvls_old[d as int].len());
                        assert(lvls_old[d as int].len() == p + 1);
                    }
                    self.set_node(d, p, node);
                    proof {
                        assert(self.levels()[d as int] =~= lvls_new[d as int]) by {
                            assert forall|j: int|
                                0 <= j < lvls_new[d as int].len()
                                    implies self.levels()[d as int][j] == lvls_new[d as int][j] by {
                                if j < p {
                                    assert(lvls_new[d as int][j] == lvls_old[d as int][j]);
                                }
                            }
                        }
                        lemma_parse_after_set(pre, self.levels(), d as int, p as int, node@);
                    }
                }
            }
            proof {
                assert forall|k: int| 0 <= k < d + 1 implies #[trigger] self.levels()[k]
                    == lvls_new[k] by {
                    if k < d {
                        assert(self.levels()[k] == pre[k]);
                    }
                }
                assert forall|k: int|
                    d + 1 <= k < lvls_old.len() implies #[trigger] self.levels()[k]
                    == lvls_old[k] by {
                    assert(self.levels()[k] == pre[k]);
                }
            }
            cursor = p;
            d = d + 1;
        }
        proof {
            assert(self.levels().len() == lvls_new.len());
            assert(self.levels() =~= lvls_new);
            assert(tree_levels(leaf_hashes(self.leaves_view())) == lvls_new);
        }
    }

    /// A fresh membership proof for the leaf at an index, or nothing when the
    /// index is out of range. The proof always passes `verify`.
    #[verifier::rlimit(100)]
    pub fn get_proof(&self, index: usize) -> (r: Option<Proof>)
        requires
            self.wf(),
        ensures
            r is Some <==> (index as nat) < self.leaf_count(),
            r matches Some(p) ==> self.is_proof_for(p, index) && proof_accepted(p),
    {
        if index >= self.leaves.len() {
            return None;
        }
        let ghost l0 = leaf_hashes(self.leaves_view());
        let ghost lvls = levels_above(l0);
        let ghost all_sibs = spec_siblings(lvls, index as nat);
        proof {
            assert(l0.len() >= 1);
            lemma_levels_above_props(l0);
            assert(self.levels() == lvls);
            assert(all_sibs.len() == lvls.len() - 1);
        }
        let height = self.get_height();
        proof {
            assert(lvls.len() == height + 1);
            assert(self.data@.len() == height + 1);
        }
        let mut siblings: Vec<Vec<u8>> = Vec::new();
        let mut cursor = index;
        let mut d: usize = 0;
        while d < height
            invariant
                0 <= d <= height,
                self.wf(),
                (index as nat) < self.leaf_count(),
                l0 == leaf_hashes(self.leaves_view()),
                l0.len() >= 1,
                index < l0.len(),
                lvls == levels_above(l0),
                all_sibs == spec_siblings(lvls, index as nat),
                all_sibs.len() == lvls.len() - 1,
                lvls.len() == height + 1,
                self.data@.len() == height + 1,
                self.levels() == lvls,
                cursor as nat == spec_cursor(index as nat, d as nat),
                siblings@.len() == d,
                forall|k: int|
                    0 <= k < d ==> #[trigger] siblings@[k]@ == all_sibs[k] && parses_as_field(
                        siblings@[k]@,
                    ),
            decreases height - d,
        {
            proof {
                lemma_cursor_lt(l0, index as nat, d as nat);
                assert(cursor < lvls[d as int].len());
                assert(self.levels()[d as int].len() == self.data@[d as int]@.len());
            }
            let lvl_len = self.data[d].len();
            let sib_pos = if cursor % 2 == 0 {
                cursor + 1
            } else {
                cursor - 1
            };
            proof {
                assert(sib_pos as nat == flip_pos(spec_cursor(index as nat, d as nat)));
            }
            let sib = if sib_pos < lvl_len {
                let fe = self.data[d][sib_pos];
                proof {
                    assert(fe@ == self.levels()[d as int][sib_pos as int]);
                    assert(fe@ == node_or_empty(lvls[d as int], sib_pos as int));
                }
                fe.to_bytes()
            } else {
                proof {
                    assert(node_or_empty(lvls[d as int], sib_pos as int) == empty_hash_enc());
                }
                empty_hash().to_bytes()
            };
            siblings.push(sib);
            proof {
                assert(siblings@[d as int]@ == all_sibs[d as int]);
            }
            cursor = cursor / 2;
            d = d + 1;
        }
        let value = clone_bytes(&self.leaves[index]);
        let top = self.data.len() - 1;
        let root = self.data[top][0].to_bytes();
        proof {
            assert(lvls.last().len() == 1);
            assert(self.levels()[top as int].len() == self.data@[top as int]@.len());
            assert(root@ == lvls.last()[0]);
            assert(root@ == root_of(self.leaves_view()));
        }
        let p = Proof { index, value, siblings, root, empty: false };
        proof {
            assert(p.siblings@.map_values(|s: Vec<u8>| s@) =~= all_sibs);
            assert(self.is_proof_for(p, index));
            lemma_generated_proof_verifies(self, index, p);
        }
        Some(p)
    }

    /// Check a proof by pure recomputation from its own fields: absorb the
    /// value, fold the sibling path along the index's bits, and compare the
    /// outcome with the claimed root. No tree state is consulted.
    pub fn verify(&self, proof: &Proof) -> (r: bool)
        ensures
            r == proof_accepted(*proof),
    {
        let ghost sibs = proof.siblings@.map_values(|s: Vec<u8>| s@);
        let mut candidate = absorb(proof.value.as_slice());
        let mut cursor = proof.index;
        let len = proof.siblings.len();
        let mut d: usize = 0;
        proof {
            assert(sibs.skip(0) =~= sibs);
        }
        while d < len
            invariant
                0 <= d <= len,
                len == proof.siblings@.len(),
                sibs == proof.siblings@.map_values(|s: Vec<u8>| s@),
                cursor as nat == spec_cursor(proof.index as nat, d as nat),
                parses_as_field(candidate@),
                forall|k: int| 0 <= k < d ==> parses_as_field(#[trigger] sibs[k]),
                path_root_enc(candidate@, sibs.skip(d as int), cursor as nat) == path_root_enc(
                    absorb_enc(proof.value@),
                    sibs,
                    proof.index as nat,
                ),
            decreases len - d,
        {
            proof {
                assert(sibs[d as int] == proof.siblings@[d as int]@);
            }
            let sib = match field_from_bytes(proof.siblings[d].as_slice()) {
                Some(f) => f,
                None => {
                    proof {
                        assert(!parses_as_field(proof.siblings@[d as int]@));
                    }
                    return false;
                },
            };
            proof {
                assert(sibs.skip(d as int)[0] == sibs[d as int]);
                assert(sibs.skip(d as int).drop_first() =~= sibs.skip(d + 1));
            }
            candidate = if cursor % 2 == 0 {
                compress(&candidate, &sib)
            } else {
                compress(&sib, &candidate)
            };
            cursor = cursor / 2;
            d = d + 1;
        }
        proof {
            assert(sibs.skip(len as int) =~= Seq::<Seq<u8>>::empty());
            assert(path_root_enc(candidate@, sibs.skip(len as int), cursor as nat) == candidate@);
        }
        let r = candidate.eq_bytes(proof.root.as_slice());
        proof {
            assert(path_root_enc(absorb_enc(proof.value@), sibs, proof.index as nat)
                == candidate@);
            assert forall|k: int| 0 <= k < proof.siblings@.len() implies parses_as_field(
                #[trigger] proof.siblings@[k]@,
            ) by {
                assert(sibs[k] == proof.siblings@[k]@);
            }
            if r {
                assert(proof_accepted(*proof));
            } else {
                assert(!proof_accepted(*proof));
            }
        }
        r
    }

    /// Insert a value at an index: append when the index equals the current
    /// leaf count, overwrite when it is below it, and fail on any gap.
    pub fn insert_leaf(&mut self, index: usize, value: Vec<u8>) -> (r: Result<(), TreeError>)
        requires
            old(self).wf(),
            old(self).leaf_count() < usize::MAX,
        ensures
            final(self).wf(),
            r is Ok <==> index <= old(self).leaf_count(),
            r is Err ==> r == Err::<(), TreeError>(TreeError::IndexOutOfRange) && *final(self)
                == *old(self),
            index == old(self).leaf_count() ==> final(self).leaves_view() == old(
                self,
            ).leaves_view().push(value@),
            index < old(self).leaf_count() ==> final(self).leaves_view() == old(
                self,
            ).leaves_view().update(index as int, value@),
    {
        let len = self.leaves.len();
        if index == len {
            self.push_node(value);
            Ok(())
        } else if index < len {
            self.update(index, value);
            Ok(())
        } else {
            Err(TreeError::IndexOutOfRange)
        }
    }
}

fn clone_bytes(src: &Vec<u8>) -> (r: Vec<u8>)
    ensures
        r@ == src@,
{
    let mut r: Vec<u8> = Vec::new();
    let mut i: usize = 0;
    while i < src.len()
        invariant
            i <= src@.len(),
            r@ == src@.take(i as int),
        decreases src@.len() - i,
    {
        r.push(src[i]);
        proof {
            assert(src@.take(i + 1) =~= src@.take(i as int).push(src@[i as int]));
        }
        i = i + 1;
    }
    proof {
        assert(src@.take(src@.len() as int) =~= src@);
    }
    r
}

/// Law: a proof freshly generated from any tree — whatever sequence of
/// insertions built it — is accepted by `verify`: a proof that meets
/// `get_proof`'s contract for a valid index satisfies `proof_accepted`,
/// which is exactly what `verify` returns.
pub proof fn lemma_generated_proof_verifies(t: &MerkleTree, index: usize, p: Proof)
    requires
        (index as nat) < t.leaf_count(),
        t.is_proof_for(p, index),
    ensures
        proof_accepted(p),
{
    let l0 = leaf_hashes(t.leaves_view());
    let lvls = levels_above(l0);
    let sibs = spec_siblings(lvls, index as nat);
    lemma_levels_above_props(l0);
    lemma_path_from(l0, index as nat, 0);
    assert(sibs.skip(0) =~= sibs);
    assert(lvls[0] == l0);
    assert(spec_cursor(index as nat, 0) == index as nat);
    assert(l0[index as int] == absorb_enc(t.leaves_view()[index as int]));
    assert(p.siblings@.map_values(|s: Vec<u8>| s@) == sibs);
    assert(path_root_enc(absorb_enc(p.value@), sibs, index as nat) == lvls.last()[0]);
    assert(p.root@ == root_of(t.leaves_view()));
}

/// Law: overwriting a leaf with a value whose committed hash equals the
/// committed hash of the stored value leaves the root unchanged. (That a
/// differing committed hash changes the root is collision resistance of the
/// compression, outside the model; the scenario tests exercise it.)
pub proof fn lemma_update_same_hash_same_root(leaves: Seq<Seq<u8>>, i: int, v: Seq<u8>)
    requires
        0 <= i < leaves.len(),
        absorb_enc(v) == absorb_enc(leaves[i]),
    ensures
        root_of(leaves.update(i, v)) == root_of(leaves),
{
    assert(leaf_hashes(leaves.update(i, v)) =~= leaf_hashes(leaves));
}

} // verus!
