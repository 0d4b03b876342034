//! Cluster programs by bytecode similarity threshold.
use vstd::prelude::*;

use crate::elf_loader::{parse_elf_bytes, spec_parse_elf};
use crate::fingerprint_db::{spec_width_error, width_error};
use crate::minhash::{
    compute_signature, estimate_jaccard, spec_estimate_jaccard, spec_signature, MinHashSignature,
};
use crate::opcode_ngram::{extract_ngrams, ngram_width_fits, ngram_width_ok, spec_ngram_set};
use crate::ratio::{Ratio, WideRatio};
use crate::{spec_files, ProgramFile};

verus! {

/// Whether programs `a` and `b` of `sigs` are linked: they are two distinct
/// programs, and the MinHash estimate of the earlier's signature against
/// the later's is at least `threshold`.
pub open spec fn spec_linked(sigs: Seq<Seq<u64>>, threshold: Ratio, a: int, b: int) -> bool {
    &&& 0 <= a < sigs.len()
    &&& 0 <= b < sigs.len()
    &&& a != b
    &&& if a < b {
        spec_estimate_jaccard(sigs[a], sigs[b]).spec_at_least(threshold)
    } else {
        spec_estimate_jaccard(sigs[b], sigs[a]).spec_at_least(threshold)
    }
}

/// Whether the pair of programs `a` and `b` comes before the pair `(i, j)`
/// in the order pairs are examined: by smaller program, then by larger.
pub open spec fn spec_pair_before(a: int, b: int, i: int, j: int) -> bool {
    let lo = if a < b {
        a
    } else {
        b
    };
    let hi = if a < b {
        b
    } else {
        a
    };
    lo < i || (lo == i && hi < j)
}

/// Whether `a` and `b` are linked and their pair comes before `(i, j)`.
pub open spec fn spec_link_before(
    sigs: Seq<Seq<u64>>,
    threshold: Ratio,
    i: int,
    j: int,
    a: int,
    b: int,
) -> bool {
    spec_linked(sigs, threshold, a, b) && spec_pair_before(a, b, i, j)
}

/// Whether `walk` is a walk among the programs of `sigs`, each step along a
/// link whose pair comes before `(i, j)`.
pub open spec fn spec_walk_before(
    sigs: Seq<Seq<u64>>,
    threshold: Ratio,
    i: int,
    j: int,
    walk: Seq<int>,
) -> bool {
    &&& walk.len() >= 1
    &&& forall|k: int| 0 <= k < walk.len() ==> 0 <= #[trigger] walk[k] < sigs.len()
    &&& forall|k: int|
        0 <= k < walk.len() - 1 ==> spec_link_before(
            sigs,
            threshold,
            i,
            j,
            #[trigger] walk[k],
            walk[k + 1],
        )
}

/// Whether programs `x` and `y` are connected by links whose pairs come
/// before `(i, j)`.
pub open spec fn spec_connected_before(
    sigs: Seq<Seq<u64>>,
    threshold: Ratio,
    i: int,
    j: int,
    x: int,
    y: int,
) -> bool {
    exists|walk: Seq<int>|
        #[trigger] spec_walk_before(sigs, threshold, i, j, walk) && walk[0] == x && walk.last()
            == y
}

/// Whether programs `x` and `y` of `sigs` are connected by links: every
/// pair of programs comes before `(sigs.len(), 0)`.
#[verifier::opaque]
pub open spec fn spec_connected(sigs: Seq<Seq<u64>>, threshold: Ratio, x: int, y: int) -> bool {
    spec_connected_before(sigs, threshold, sigs.len() as int, 0, x, y)
}

proof fn lemma_walk_single(sigs: Seq<Seq<u64>>, threshold: Ratio, i: int, j: int, x: int)
    requires
        0 <= x < sigs.len(),
    ensures
        spec_connected_before(sigs, threshold, i, j, x, x),
{
    let walk = seq![x];
    assert(spec_walk_before(sigs, threshold, i, j, walk));
}

/// Two walks joined by a link make a walk.
proof fn lemma_walk_join(
    sigs: Seq<Seq<u64>>,
    threshold: Ratio,
    i: int,
    j: int,
    i2: int,
    j2: int,
    w1: Seq<int>,
    w2: Seq<int>,
)
    requires
        spec_walk_before(sigs, threshold, i, j, w1),
        spec_walk_before(sigs, threshold, i, j, w2),
        spec_link_before(sigs, threshold, i2, j2, w1.last(), w2[0]),
        forall|a: int, b: int|
            spec_link_before(sigs, threshold, i, j, a, b) ==> spec_link_before(
                sigs,
                threshold,
                i2,
                j2,
                a,
                b,
            ),
    ensures
        spec_walk_before(sigs, threshold, i2, j2, w1 + w2),
        (w1 + w2)[0] == w1[0],
        (w1 + w2).last() == w2.last(),
{
    let w = w1 + w2;
    assert forall|k: int| 0 <= k < w.len() - 1 implies spec_link_before(
        sigs,
        threshold,
        i2,
        j2,
        #[trigger] w[k],
        w[k + 1],
    ) by {
        if k < w1.len() - 1 {
            assert(w[k] == w1[k] && w[k + 1] == w1[k + 1]);
        } else if k == w1.len() - 1 {
            assert(w[k] == w1.last() && w[k + 1] == w2[0]);
        } else {
            let k2 = k - w1.len();
            assert(w[k] == w2[k2] && w[k + 1] == w2[k2 + 1]);
        }
    }
    assert forall|k: int| 0 <= k < w.len() implies 0 <= #[trigger] w[k] < sigs.len() by {
        if k < w1.len() {
            assert(w[k] == w1[k]);
        } else {
            assert(w[k] == w2[k - w1.len()]);
        }
    }
}

/// A walk whose links come before `(i, j)` is one whose links come before
/// any later pair.
proof fn lemma_walk_widen(
    sigs: Seq<Seq<u64>>,
    threshold: Ratio,
    i: int,
    j: int,
    i2: int,
    j2: int,
    w: Seq<int>,
)
    requires
        spec_walk_before(sigs, threshold, i, j, w),
        forall|a: int, b: int|
            spec_link_before(sigs, threshold, i, j, a, b) ==> spec_link_before(
                sigs,
                threshold,
                i2,
                j2,
                a,
                b,
            ),
    ensures
        spec_walk_before(sigs, threshold, i2, j2, w),
{
    assert forall|k: int| 0 <= k < w.len() - 1 implies spec_link_before(
        sigs,
        threshold,
        i2,
        j2,
        #[trigger] w[k],
        w[k + 1],
    ) by {
        assert(spec_link_before(sigs, threshold, i, j, w[k], w[k + 1]));
    }
}

/// Labels that agree across every link whose pair comes before `(i, j)` are
/// equal at both ends of every walk along such links.
proof fn lemma_walk_keeps_label(
    sigs: Seq<Seq<u64>>,
    threshold: Ratio,
    i: int,
    j: int,
    label: Seq<int>,
    w: Seq<int>,
)
    requires
        spec_walk_before(sigs, threshold, i, j, w),
        label.len() == sigs.len(),
        forall|a: int, b: int|
            #[trigger] spec_link_before(sigs, threshold, i, j, a, b) ==> label[a] == label[b],
    ensures
        label[w[0]] == label[w.last()],
    decreases w.len(),
{
    if w.len() > 1 {
        let rest = w.drop_last();
        assert forall|k: int| 0 <= k < rest.len() - 1 implies spec_link_before(
            sigs,
            threshold,
            i,
            j,
            #[trigger] rest[k],
            rest[k + 1],
        ) by {
            assert(rest[k] == w[k] && rest[k + 1] == w[k + 1]);
        }
        assert forall|k: int| 0 <= k < rest.len() implies 0 <= #[trigger] rest[k] < sigs.len() by {
            assert(rest[k] == w[k]);
        }
        lemma_walk_keeps_label(sigs, threshold, i, j, label, rest);
        assert(spec_link_before(sigs, threshold, i, j, w[w.len() - 2], w[w.len() - 1]));
    }
}

/// The parent forest of a union-find over `label.len()` programs, with the
/// label of each program (the root of its tree) and ranks that grow towards
/// the roots and stay below `bound`.
pub open spec fn spec_forest(parent: Seq<usize>, label: Seq<int>, rank: Seq<nat>, bound: nat) -> bool {
    &&& parent.len() == label.len() == rank.len()
    &&& forall|x: int| 0 <= x < parent.len() ==> (#[trigger] parent[x]) < parent.len()
    &&& forall|x: int| 0 <= x < parent.len() ==> 0 <= #[trigger] label[x] < parent.len()
    &&& forall|x: int| 0 <= x < parent.len() ==> parent[#[trigger] label[x]] == label[x]
    &&& forall|x: int| 0 <= x < parent.len() && #[trigger] parent[x] == x ==> label[x] == x
    &&& forall|x: int| 0 <= x < parent.len() ==> label[#[trigger] parent[x] as int] == label[x]
    &&& forall|x: int|
        0 <= x < parent.len() && #[trigger] parent[x] != x ==> rank[parent[x] as int] > rank[x]
            && rank[label[x]] > rank[x]
    &&& forall|x: int| 0 <= x < parent.len() ==> #[trigger] rank[x] < bound
}

/// The root of the tree of `x`, which is its label; the path to it is
/// shortened on the way.
fn find(
    parent: &mut Vec<usize>,
    x: usize,
    Ghost(label): Ghost<Seq<int>>,
    Ghost(rank): Ghost<Seq<nat>>,
    Ghost(bound): Ghost<nat>,
) -> (root: usize)
    requires
        spec_forest(old(parent)@, label, rank, bound),
        x < old(parent)@.len(),
    ensures
        spec_forest(final(parent)@, label, rank, bound),
        final(parent)@.len() == old(parent)@.len(),
        root == label[x as int],
    decreases bound - rank[x as int],
{
    let p = parent[x];
    if p == x {
        return x;
    }
    assert(rank[p as int] > rank[x as int]);
    let root = find(parent, p, Ghost(label), Ghost(rank), Ghost(bound));
    parent.set(x, root);
    proof {
        let pa = parent@;
        assert forall|y: int| 0 <= y < pa.len() && #[trigger] pa[y] != y implies rank[pa[y] as int]
            > rank[y] && rank[label[y]] > rank[y] by {
            if y == x {
                assert(label[x as int] != x);
            }
        }
        assert forall|y: int| 0 <= y < pa.len() implies pa[#[trigger] label[y]] == label[y] by {
            if label[y] == x {
                assert(label[x as int] == x);
            }
        }
    }
    root
}

/// Merge the trees of `a` and `b`: every program labelled like `b` takes
/// the label of `a`.
fn union(
    parent: &mut Vec<usize>,
    a: usize,
    b: usize,
    Ghost(label): Ghost<Seq<int>>,
    Ghost(rank): Ghost<Seq<nat>>,
    Ghost(bound): Ghost<nat>,
) -> (next: Ghost<(Seq<int>, Seq<nat>, nat)>)
    requires
        spec_forest(old(parent)@, label, rank, bound),
        a < old(parent)@.len(),
        b < old(parent)@.len(),
    ensures
        spec_forest(final(parent)@, next@.0, next@.1, next@.2),
        final(parent)@.len() == old(parent)@.len(),
        forall|x: int|
            0 <= x < label.len() ==> #[trigger] next@.0[x] == if label[x] == label[b as int] {
                label[a as int]
            } else {
                label[x]
            },
{
    let ra = find(parent, a, Ghost(label), Ghost(rank), Ghost(bound));
    let rb = find(parent, b, Ghost(label), Ghost(rank), Ghost(bound));
    if ra == rb {
        proof {
            assert forall|x: int| 0 <= x < label.len() implies #[trigger] label[x] == if label[x]
                == label[b as int] {
                label[a as int]
            } else {
                label[x]
            } by {}
        }
        return Ghost((label, rank, bound));
    }
    let ghost n = label.len();
    let ghost new_label = Seq::new(n, |x: int| if label[x] == rb { ra as int } else { label[x] });
    let ghost top = if rank[ra as int] > rank[rb as int] + 1 {
        rank[ra as int]
    } else {
        rank[rb as int] + 1
    };
    let ghost new_rank = rank.update(ra as int, top);
    let ghost new_bound = if bound > top + 1 {
        bound
    } else {
        top + 1
    };
    let ghost old_parent = parent@;
    parent.set(rb, ra);
    proof {
        let pa = parent@;
        assert(old_parent[ra as int] == ra);
        assert(old_parent[rb as int] == rb);
        assert forall|x: int| 0 <= x < pa.len() implies pa[#[trigger] new_label[x]] == new_label[x] by {
            if label[x] != rb {
                assert(old_parent[label[x]] == label[x]);
            }
        }
        assert forall|x: int| 0 <= x < pa.len() && #[trigger] pa[x] == x implies new_label[x] == x by {
            assert(x != rb);
            assert(old_parent[x] == x);
        }
        assert forall|x: int| 0 <= x < pa.len() implies new_label[#[trigger] pa[x] as int]
            == new_label[x] by {
            if x != rb {
                assert(label[old_parent[x] as int] == label[x]);
            } else {
                assert(label[ra as int] == ra);
            }
        }
        assert forall|x: int| 0 <= x < pa.len() && #[trigger] pa[x] != x implies new_rank[pa[x] as int]
            > new_rank[x] && new_rank[new_label[x]] > new_rank[x] by {
            if x == rb {
                assert(label[rb as int] == rb);
            } else {
                assert(old_parent[x] != x);
                assert(x != ra);
                assert(rank[old_parent[x] as int] > rank[x]);
                assert(rank[label[x]] > rank[x]);
            }
        }
        assert forall|x: int| 0 <= x < pa.len() implies #[trigger] new_rank[x] < new_bound by {
            assert(rank[x] < bound);
        }
        assert forall|x: int| 0 <= x < pa.len() implies 0 <= #[trigger] new_label[x] < pa.len() by {}
        assert forall|x: int| 0 <= x < pa.len() implies (#[trigger] pa[x]) < pa.len() by {}
    }
    Ghost((new_label, new_rank, new_bound))
}

/// A link whose pair comes before `(i, j)` connects its two programs.
proof fn lemma_link_connects(sigs: Seq<Seq<u64>>, threshold: Ratio, i: int, j: int, a: int, b: int)
    requires
        spec_link_before(sigs, threshold, i, j, a, b),
    ensures
        spec_connected_before(sigs, threshold, i, j, a, b),
{
    let w = seq![a, b];
    assert(w[0] == a && w[1] == b);
    assert(spec_walk_before(sigs, threshold, i, j, w));
}

/// The same links make the same connections.
proof fn lemma_same_links(
    sigs: Seq<Seq<u64>>,
    threshold: Ratio,
    i: int,
    j: int,
    i2: int,
    j2: int,
)
    requires
        forall|a: int, b: int|
            spec_link_before(sigs, threshold, i, j, a, b) <==> spec_link_before(
                sigs,
                threshold,
                i2,
                j2,
                a,
                b,
            ),
    ensures
        forall|x: int, y: int|
            spec_connected_before(sigs, threshold, i, j, x, y) <==> spec_connected_before(
                sigs,
                threshold,
                i2,
                j2,
                x,
                y,
            ),
{
    assert forall|x: int, y: int|
        spec_connected_before(sigs, threshold, i, j, x, y) implies spec_connected_before(
            sigs,
            threshold,
            i2,
            j2,
            x,
            y,
        ) by {
        let w = choose|w: Seq<int>|
            #[trigger] spec_walk_before(sigs, threshold, i, j, w) && w[0] == x && w.last() == y;
        lemma_walk_widen(sigs, threshold, i, j, i2, j2, w);
    }
    assert forall|x: int, y: int|
        spec_connected_before(sigs, threshold, i2, j2, x, y) implies spec_connected_before(
            sigs,
            threshold,
            i,
            j,
            x,
            y,
        ) by {
        let w = choose|w: Seq<int>|
            #[trigger] spec_walk_before(sigs, threshold, i2, j2, w) && w[0] == x && w.last() == y;
        lemma_walk_widen(sigs, threshold, i2, j2, i, j, w);
    }
}

/// Whether `label` gives two programs of `sigs` the same label exactly when
/// they are connected by links whose pairs come before `(i, j)`.
pub open spec fn spec_labels_connect(
    sigs: Seq<Seq<u64>>,
    threshold: Ratio,
    i: int,
    j: int,
    label: Seq<int>,
) -> bool {
    &&& label.len() == sigs.len()
    &&& forall|x: int, y: int|
        #![trigger label[x], label[y]]
        #![trigger spec_connected_before(sigs, threshold, i, j, x, y)]
        0 <= x < sigs.len() && 0 <= y < sigs.len() ==> (label[x] == label[y]
            <==> spec_connected_before(sigs, threshold, i, j, x, y))
}

/// Examining the pair `(i, j)`: when the two programs are linked, merging
/// the label of `j` into that of `i` keeps labels in step with connections.
proof fn lemma_pair_step(
    sigs: Seq<Seq<u64>>,
    threshold: Ratio,
    i: int,
    j: int,
    label: Seq<int>,
    next: Seq<int>,
)
    requires
        0 <= i < j < sigs.len(),
        spec_labels_connect(sigs, threshold, i, j, label),
        next.len() == label.len(),
        spec_linked(sigs, threshold, i, j) ==> forall|x: int|
            0 <= x < label.len() ==> #[trigger] next[x] == if label[x] == label[j] {
                label[i]
            } else {
                label[x]
            },
        !spec_linked(sigs, threshold, i, j) ==> next == label,
    ensures
        spec_labels_connect(sigs, threshold, i, j + 1, next),
{
    let n = sigs.len() as int;
    assert forall|a: int, b: int|
        spec_link_before(sigs, threshold, i, j, a, b) implies spec_link_before(
            sigs,
            threshold,
            i,
            j + 1,
            a,
            b,
        ) by {}
    if !spec_linked(sigs, threshold, i, j) {
        assert forall|a: int, b: int|
            spec_link_before(sigs, threshold, i, j, a, b) <==> spec_link_before(
                sigs,
                threshold,
                i,
                j + 1,
                a,
                b,
            ) by {
            if spec_link_before(sigs, threshold, i, j + 1, a, b) && !spec_link_before(
                sigs,
                threshold,
                i,
                j,
                a,
                b,
            ) {
                assert((a == i && b == j) || (a == j && b == i));
            }
        }
        lemma_same_links(sigs, threshold, i, j, i, j + 1);
        return ;
    }
    // Labels are constant along every new link.

    assert forall|a: int, b: int|
        #[trigger] spec_link_before(sigs, threshold, i, j + 1, a, b) implies next[a] == next[b] by {
        if spec_link_before(sigs, threshold, i, j, a, b) {
            lemma_link_connects(sigs, threshold, i, j, a, b);
            assert(label[a] == label[b]);
        } else {
            assert((a == i && b == j) || (a == j && b == i));
        }
    }
    assert forall|x: int, y: int|
        #![trigger next[x], next[y]]
        #![trigger spec_connected_before(sigs, threshold, i, j + 1, x, y)]
        0 <= x < n && 0 <= y < n implies (next[x] == next[y] <==> spec_connected_before(
            sigs,
            threshold,
            i,
            j + 1,
            x,
            y,
        )) by {
        if spec_connected_before(sigs, threshold, i, j + 1, x, y) {
            let w = choose|w: Seq<int>|
                #[trigger] spec_walk_before(sigs, threshold, i, j + 1, w) && w[0] == x && w.last()
                    == y;
            lemma_walk_keeps_label(sigs, threshold, i, j + 1, next, w);
        }
        if next[x] == next[y] {
            let lx = label[x];
            let ly = label[y];
            let li = label[i];
            let lj = label[j];
            if lx == ly {
                assert(spec_connected_before(sigs, threshold, i, j, x, y));
                let w = choose|w: Seq<int>|
                    #[trigger] spec_walk_before(sigs, threshold, i, j, w) && w[0] == x && w.last()
                        == y;
                lemma_walk_widen(sigs, threshold, i, j, i, j + 1, w);
            } else {
                // One of them is labelled like `j`, the other like `i`.
                let (u, v) = if lx == lj {
                    (j, i)
                } else {
                    (i, j)
                };
                assert(label[x] == label[u] && label[y] == label[v]);
                assert(spec_connected_before(sigs, threshold, i, j, x, u));
                assert(spec_connected_before(sigs, threshold, i, j, v, y));
                let w1 = choose|w: Seq<int>|
                    #[trigger] spec_walk_before(sigs, threshold, i, j, w) && w[0] == x && w.last()
                        == u;
                let w2 = choose|w: Seq<int>|
                    #[trigger] spec_walk_before(sigs, threshold, i, j, w) && w[0] == v && w.last()
                        == y;
                lemma_walk_join(sigs, threshold, i, j, i, j + 1, w1, w2);
            }
        }
    }
}

/// Programs are connected by links whose pairs come before `(i, n)` exactly
/// when they are by links whose pairs come before `(i + 1, i + 2)`, `n`
/// being the number of programs.
proof fn lemma_row_end(sigs: Seq<Seq<u64>>, threshold: Ratio, i: int)
    requires
        0 <= i,
    ensures
        forall|x: int, y: int|
            spec_connected_before(sigs, threshold, i, sigs.len() as int, x, y)
                <==> spec_connected_before(sigs, threshold, i + 1, i + 2, x, y),
{
    lemma_same_links(sigs, threshold, i, sigs.len() as int, i + 1, i + 2);
}

/// Connections by links whose pairs come before `(n, n + 1)`, `n` being the
/// number of programs, are all connections.
proof fn lemma_all_pairs(sigs: Seq<Seq<u64>>, threshold: Ratio)
    ensures
        forall|x: int, y: int|
            spec_connected_before(sigs, threshold, sigs.len() as int, sigs.len() + 1 as int, x, y)
                <==> spec_connected(sigs, threshold, x, y),
{
    reveal(spec_connected);
    lemma_same_links(sigs, threshold, sigs.len() as int, sigs.len() + 1 as int, sigs.len() as int, 0);
}

/// A cluster of program files that share similar bytecode fingerprints.
#[derive(Debug)]
pub struct Cluster {
    pub id: usize,
    pub members: Vec<String>,
    pub avg_similarity: WideRatio,
}

/// Result of clustering a set of program binaries: the clusters, and the
/// path and MinHash signature of every program that took part.
#[derive(Debug)]
pub struct ClusterResult {
    pub clusters: Vec<Cluster>,
    pub signatures: Vec<(String, MinHashSignature)>,
}

/// The path and MinHash signature, with `num_hashes` slots, of every file of
/// `files` (path and contents) that loads as an ELF program whose text
/// section yields n-grams of width `ngram_size`, in order.
pub open spec fn spec_signed(
    files: Seq<(Seq<char>, Seq<u8>)>,
    ngram_size: usize,
    num_hashes: usize,
) -> Seq<(Seq<char>, Seq<u64>)>
    decreases files.len(),
{
    if files.len() == 0 {
        Seq::empty()
    } else {
        let earlier = spec_signed(files.drop_last(), ngram_size, num_hashes);
        let (path, data) = files.last();
        match spec_parse_elf(data) {
            Ok((text, _)) => {
                let ngrams = spec_ngram_set(text, ngram_size as nat);
                if ngrams.is_empty() {
                    earlier
                } else {
                    earlier.push((path, spec_signature(ngrams, num_hashes as nat)))
                }
            },
            Err(_) => earlier,
        }
    }
}

/// The path of the first file of `files` that loads as an ELF program whose
/// text section cannot be cut into n-grams of width `ngram_size`, if any.
pub open spec fn spec_width_failure(files: Seq<(Seq<char>, Seq<u8>)>, ngram_size: usize) -> Option<
    Seq<char>,
>
    decreases files.len(),
{
    if files.len() == 0 {
        None
    } else {
        match spec_width_failure(files.drop_last(), ngram_size) {
            Some(path) => Some(path),
            None => {
                let (path, data) = files.last();
                match spec_parse_elf(data) {
                    Ok((text, _)) => if ngram_width_ok(text, ngram_size as nat) {
                        None
                    } else {
                        Some(path)
                    },
                    Err(_) => None,
                }
            },
        }
    }
}

/// The signatures of `signed`.
pub open spec fn spec_sigs(signed: Seq<(Seq<char>, Seq<u64>)>) -> Seq<Seq<u64>> {
    signed.map_values(|e: (Seq<char>, Seq<u64>)| e.1)
}

/// The programs among the first `m` that are connected to program `r`, in
/// order.
pub open spec fn spec_members_upto(sigs: Seq<Seq<u64>>, threshold: Ratio, r: int, m: int) -> Seq<
    int,
>
    decreases m,
{
    if m <= 0 {
        Seq::empty()
    } else {
        let earlier = spec_members_upto(sigs, threshold, r, m - 1);
        if spec_connected(sigs, threshold, r, m - 1) {
            earlier.push(m - 1)
        } else {
            earlier
        }
    }
}

/// Whether program `k` comes first in its cluster: no earlier program is
/// connected to it.
#[verifier::opaque]
pub open spec fn spec_leads(sigs: Seq<Seq<u64>>, threshold: Ratio, k: int) -> bool {
    forall|j: int| 0 <= j < k ==> !#[trigger] spec_connected(sigs, threshold, j, k)
}

/// The programs among the first `m` that come first in their clusters, in
/// order.
pub open spec fn spec_leaders_upto(sigs: Seq<Seq<u64>>, threshold: Ratio, m: int) -> Seq<int>
    decreases m,
{
    if m <= 0 {
        Seq::empty()
    } else {
        let earlier = spec_leaders_upto(sigs, threshold, m - 1);
        if spec_leads(sigs, threshold, m - 1) {
            earlier.push(m - 1)
        } else {
            earlier
        }
    }
}

/// The number of pairs among `m` members.
pub open spec fn spec_pair_count(m: nat) -> nat
    decreases m,
{
    if m == 0 {
        0
    } else {
        spec_pair_count((m - 1) as nat) + (m - 1) as nat
    }
}

/// The sum of the estimate numerators of member `b` against each earlier
/// member among the first `a` of `members`.
pub open spec fn spec_row_total(sigs: Seq<Seq<u64>>, members: Seq<int>, a: int, b: int) -> nat
    decreases a,
{
    if a <= 0 {
        0
    } else {
        spec_row_total(sigs, members, a - 1, b) + spec_estimate_jaccard(
            sigs[members[a - 1]],
            sigs[members[b]],
        ).numerator as nat
    }
}

/// The sum of the estimate numerators over every pair among the first `m`
/// members of `members`.
pub open spec fn spec_pairs_total(sigs: Seq<Seq<u64>>, members: Seq<int>, m: int) -> nat
    decreases m,
{
    if m <= 0 {
        0
    } else {
        spec_pairs_total(sigs, members, m - 1) + spec_row_total(sigs, members, m - 1, m - 1)
    }
}

/// The denominator every estimate between signatures of `num_hashes` slots
/// has.
pub open spec fn spec_estimate_denominator(num_hashes: usize) -> nat {
    if num_hashes == 0 {
        1
    } else {
        num_hashes as nat
    }
}

/// The average estimate over every pair of `members`, signatures having
/// `num_hashes` slots; one when there is no pair.
pub open spec fn spec_average(sigs: Seq<Seq<u64>>, members: Seq<int>, num_hashes: usize) -> WideRatio {
    if members.len() < 2 {
        WideRatio { numerator: 1, denominator: 1 }
    } else {
        WideRatio {
            numerator: spec_pairs_total(sigs, members, members.len() as int) as u128,
            denominator: (spec_pair_count(members.len()) * spec_estimate_denominator(
                num_hashes,
            )) as u128,
        }
    }
}

/// The contents of a cluster: its id, member paths and average similarity.
pub open spec fn spec_cluster_view(c: Cluster) -> (usize, Seq<Seq<char>>, WideRatio) {
    (c.id, c.members@.map_values(|s: String| s@), c.avg_similarity)
}

/// Cluster number `g` of the programs `signed`, numbered in the order of
/// their first members: the paths of its members in order, and the average
/// estimate over its pairs.
pub open spec fn spec_cluster_of(
    signed: Seq<(Seq<char>, Seq<u64>)>,
    threshold: Ratio,
    num_hashes: usize,
    g: int,
) -> (usize, Seq<Seq<char>>, WideRatio) {
    let sigs = spec_sigs(signed);
    let leader = spec_leaders_upto(sigs, threshold, sigs.len() as int)[g];
    let members = spec_members_upto(sigs, threshold, leader, sigs.len() as int);
    (
        g as usize,
        members.map_values(|k: int| signed[k].0),
        spec_average(sigs, members, num_hashes),
    )
}

/// `clusters` are the clusters of the programs `signed`: one per group of
/// connected programs, each holding its own content, largest first, and
/// clusters of equal size in the order of their first members.
pub open spec fn spec_clusters_of(
    signed: Seq<(Seq<char>, Seq<u64>)>,
    threshold: Ratio,
    num_hashes: usize,
    clusters: Seq<Cluster>,
) -> bool {
    let sigs = spec_sigs(signed);
    &&& clusters.len() == spec_leaders_upto(sigs, threshold, sigs.len() as int).len()
    &&& forall|c: int|
        0 <= c < clusters.len() ==> (#[trigger] clusters[c]).id < clusters.len()
            && spec_cluster_view(clusters[c]) == spec_cluster_of(
            signed,
            threshold,
            num_hashes,
            clusters[c].id as int,
        )
    &&& forall|c: int, d: int|
        0 <= c < d < clusters.len() ==> (#[trigger] clusters[c]).id != (#[trigger] clusters[d]).id
    &&& forall|c: int, d: int|
        0 <= c < d < clusters.len() ==> (#[trigger] clusters[c]).members@.len() > (
        #[trigger] clusters[d]).members@.len() || (clusters[c].members@.len()
            == clusters[d].members@.len() && clusters[c].id < clusters[d].id)
}

/// The paths and signatures of `signed`.
pub open spec fn spec_signed_view(signed: Seq<(String, MinHashSignature)>) -> Seq<
    (Seq<char>, Seq<u64>),
> {
    signed.map_values(|e: (String, MinHashSignature)| (e.0@, e.1.values@))
}

/// The path and MinHash signature of every file of `files` that loads as an
/// ELF program whose text section yields n-grams, in order; or the message
/// for the first such program whose text cannot be cut into n-grams of
/// width `ngram_size`.
fn sign_programs(files: &[ProgramFile], ngram_size: usize, num_hashes: usize) -> (res: Result<
    Vec<(String, MinHashSignature)>,
    String,
>)
    ensures
        match res {
            Ok(signed) => spec_width_failure(spec_files(files@), ngram_size) is None
                && spec_signed_view(signed@) == spec_signed(spec_files(files@), ngram_size, num_hashes)
                && signed@.len() <= files@.len() && forall|k: int|
                0 <= k < signed@.len() ==> (#[trigger] signed@[k]).1.values@.len() == num_hashes,
            Err(msg) => spec_width_failure(spec_files(files@), ngram_size) matches Some(path)
                && msg@ == spec_width_error(ngram_size, path),
        },
{
    let ghost all = spec_files(files@);
    let mut signed: Vec<(String, MinHashSignature)> = Vec::new();
    let mut i: usize = 0;
    assert(spec_signed_view(signed@) =~= spec_signed(all.take(0), ngram_size, num_hashes));
    while i < files.len()
        invariant
            i <= files@.len(),
            all == spec_files(files@),
            spec_width_failure(all.take(i as int), ngram_size) is None,
            spec_signed_view(signed@) == spec_signed(all.take(i as int), ngram_size, num_hashes),
            signed@.len() <= i,
            forall|k: int| 0 <= k < signed@.len() ==> (#[trigger] signed@[k]).1.values@.len() == num_hashes,
        decreases files@.len() - i,
    {
        let file = &files[i];
        let ghost before = signed@;
        proof {
            assert(all.take(i + 1).drop_last() =~= all.take(i as int));
            assert(all.take(i + 1).last() == (file.path@, file.data@));
        }
        match parse_elf_bytes(file.data.as_slice()) {
            Ok(bytecode) => {
                if !ngram_width_fits(bytecode.text.as_slice(), ngram_size) {
                    proof {
                        lemma_width_failure_prefix(all, ngram_size, i + 1);
                    }
                    return Err(width_error(ngram_size, file.path.as_str()));
                }
                let ngrams = extract_ngrams(bytecode.text.as_slice(), ngram_size);
                if !ngrams.is_empty() {
                    let sig = compute_signature(&ngrams, num_hashes);
                    signed.push((file.path.clone(), sig));
                    proof {
                        assert(spec_signed_view(signed@) =~= spec_signed_view(before).push(
                            (file.path@, spec_signature(ngrams@, num_hashes as nat)),
                        ));
                    }
                }
            },
            Err(_) => {},
        }
        i = i + 1;
    }
    proof {
        assert(all.take(files@.len() as int) =~= all);
    }
    Ok(signed)
}

/// Once some prefix of `files` holds a program whose text does not fit the
/// width, the first such program of the whole sequence is that of the prefix.
proof fn lemma_width_failure_prefix(files: Seq<(Seq<char>, Seq<u8>)>, ngram_size: usize, i: int)
    requires
        0 <= i <= files.len(),
        spec_width_failure(files.take(i), ngram_size) is Some,
    ensures
        spec_width_failure(files, ngram_size) == spec_width_failure(files.take(i), ngram_size),
    decreases files.len() - i,
{
    if i < files.len() {
        assert(files.take(i + 1).drop_last() =~= files.take(i));
        lemma_width_failure_prefix(files, ngram_size, i + 1);
    } else {
        assert(files.take(i) =~= files);
    }
}

/// Union-find over the programs of `signed`, merging every pair whose
/// estimate is at least `threshold`: the forest, and the labels that tell
/// connected programs apart.
fn link_programs(signed: &Vec<(String, MinHashSignature)>, threshold: &Ratio) -> (res: (
    Vec<usize>,
    Ghost<(Seq<int>, Seq<nat>, nat)>,
))
    ensures
        spec_forest(res.0@, res.1@.0, res.1@.1, res.1@.2),
        res.0@.len() == signed@.len(),
        forall|x: int, y: int|
            #![trigger res.1@.0[x], res.1@.0[y]]
            #![trigger spec_connected(spec_sigs(spec_signed_view(signed@)), *threshold, x, y)]
            0 <= x < signed@.len() && 0 <= y < signed@.len() ==> (res.1@.0[x] == res.1@.0[y]
                <==> spec_connected(spec_sigs(spec_signed_view(signed@)), *threshold, x, y)),
{
    let ghost sigs = spec_sigs(spec_signed_view(signed@));
    let n = signed.len();
    let mut parent: Vec<usize> = Vec::new();
    let mut k: usize = 0;
    while k < n
        invariant
            k <= n,
            parent@.len() == k,
            forall|x: int| 0 <= x < k ==> #[trigger] parent@[x] == x,
        decreases n - k,
    {
        parent.push(k);
        k = k + 1;
    }
    let ghost mut label: Seq<int> = Seq::new(n as nat, |x: int| x);
    let ghost mut rank: Seq<nat> = Seq::new(n as nat, |x: int| 0nat);
    let ghost mut bound: nat = 1;
    proof {
        assert(sigs.len() == n);
        assert forall|x: int, y: int|
            #![trigger label[x], label[y]]
            #![trigger spec_connected_before(sigs, *threshold, 0, 1, x, y)]
            0 <= x < sigs.len() && 0 <= y < sigs.len() implies (label[x] == label[y]
                <==> spec_connected_before(sigs, *threshold, 0, 1, x, y)) by {
            if spec_connected_before(sigs, *threshold, 0, 1, x, y) {
                let w = choose|w: Seq<int>|
                    #[trigger] spec_walk_before(sigs, *threshold, 0, 1, w) && w[0] == x && w.last()
                        == y;
                lemma_walk_keeps_label(sigs, *threshold, 0, 1, label, w);
            }
            if x == y {
                lemma_walk_single(sigs, *threshold, 0, 1, x);
            }
        }
    }
    let mut i: usize = 0;
    while i < n
        invariant
            n == signed@.len(),
            sigs == spec_sigs(spec_signed_view(signed@)),
            i <= n,
            spec_forest(parent@, label, rank, bound),
            parent@.len() == n,
            spec_labels_connect(sigs, *threshold, i as int, i + 1, label),
        decreases n - i,
    {
        let mut j: usize = i + 1;
        while j < n
            invariant
                n == signed@.len(),
                sigs == spec_sigs(spec_signed_view(signed@)),
                i < j <= n,
                spec_forest(parent@, label, rank, bound),
                parent@.len() == n,
                spec_labels_connect(sigs, *threshold, i as int, j as int, label),
            decreases n - j,
        {
            let sim = estimate_jaccard(&signed[i].1, &signed[j].1);
            let ghost before = label;
            proof {
                assert(sigs[i as int] == signed@[i as int].1.values@);
                assert(sigs[j as int] == signed@[j as int].1.values@);
            }
            if sim.at_least(threshold) {
                let next = union(&mut parent, i, j, Ghost(label), Ghost(rank), Ghost(bound));
                proof {
                    label = next@.0;
                    rank = next@.1;
                    bound = next@.2;
                }
            }
            proof {
                lemma_pair_step(sigs, *threshold, i as int, j as int, before, label);
            }
            j = j + 1;
        }
        proof {
            lemma_row_end(sigs, *threshold, i as int);
        }
        i = i + 1;
    }
    proof {
        lemma_all_pairs(sigs, *threshold);
    }
    (parent, Ghost((label, rank, bound)))
}

/// The members of `group`, as program numbers.
pub open spec fn spec_group_members(group: Seq<usize>) -> Seq<int> {
    group.map_values(|k: usize| k as int)
}

proof fn lemma_members_none(sigs: Seq<Seq<u64>>, threshold: Ratio, r: int, m: int)
    requires
        forall|k: int| 0 <= k < m ==> !#[trigger] spec_connected(sigs, threshold, r, k),
    ensures
        spec_members_upto(sigs, threshold, r, m) == Seq::<int>::empty(),
    decreases m,
{
    if m > 0 {
        lemma_members_none(sigs, threshold, r, m - 1);
    }
}

/// Whether `label` gives two programs of `sigs` the same label exactly when
/// they are connected.
#[verifier::opaque]
pub open spec fn spec_components(sigs: Seq<Seq<u64>>, threshold: Ratio, label: Seq<int>) -> bool {
    &&& label.len() == sigs.len()
    &&& forall|x: int, y: int|
        #![trigger label[x], label[y]]
        #![trigger spec_connected(sigs, threshold, x, y)]
        0 <= x < sigs.len() && 0 <= y < sigs.len() ==> (label[x] == label[y] <==> spec_connected(
            sigs,
            threshold,
            x,
            y,
        ))
}

/// The label and members of each group.
pub open spec fn spec_groups_view(groups: Seq<(usize, Vec<usize>)>) -> Seq<(int, Seq<int>)> {
    groups.map_values(|e: (usize, Vec<usize>)| (e.0 as int, spec_group_members(e.1@)))
}

/// Whether `groups` are the groups of the first `x` programs: one per
/// program among them that comes first in its cluster, in order, with that
/// program's label and the members among the first `x`; no two with the
/// same label, and one for the label of every program among the first `x`.
#[verifier::opaque]
pub open spec fn spec_groups_upto(
    groups: Seq<(int, Seq<int>)>,
    sigs: Seq<Seq<u64>>,
    threshold: Ratio,
    label: Seq<int>,
    x: int,
) -> bool {
    let leaders = spec_leaders_upto(sigs, threshold, x);
    &&& groups.len() == leaders.len()
    &&& forall|g: int|
        0 <= g < groups.len() ==> spec_group_of(#[trigger] groups[g], sigs, threshold, label, x, leaders[g])
    &&& forall|g: int, h: int|
        0 <= g < h < groups.len() ==> (#[trigger] groups[g]).0 != (#[trigger] groups[h]).0
    &&& forall|y: int| 0 <= y < x ==> #[trigger] spec_has_group(groups, label[y])
}

/// Whether `group` is the group of the first `x` programs that `leader`
/// comes first in: it has the leader's label and the members among the
/// first `x`.
pub open spec fn spec_group_of(
    group: (int, Seq<int>),
    sigs: Seq<Seq<u64>>,
    threshold: Ratio,
    label: Seq<int>,
    x: int,
    leader: int,
) -> bool {
    &&& 0 <= leader < x
    &&& group.0 == label[leader]
    &&& group.1 == spec_members_upto(sigs, threshold, leader, x)
}

/// Whether some group of `groups` has the label `l`.
pub open spec fn spec_has_group(groups: Seq<(int, Seq<int>)>, l: int) -> bool {
    exists|g: int| 0 <= g < groups.len() && #[trigger] groups[g].0 == l
}

proof fn lemma_groups_start(sigs: Seq<Seq<u64>>, threshold: Ratio, label: Seq<int>)
    ensures
        spec_groups_upto(Seq::empty(), sigs, threshold, label, 0),
{
    reveal(spec_groups_upto);
}

proof fn lemma_groups_open(
    groups: Seq<(int, Seq<int>)>,
    sigs: Seq<Seq<u64>>,
    threshold: Ratio,
    label: Seq<int>,
    x: int,
)
    requires
        spec_groups_upto(groups, sigs, threshold, label, x),
    ensures
        groups.len() == spec_leaders_upto(sigs, threshold, x).len(),
        forall|g: int|
            0 <= g < groups.len() ==> spec_group_of(
                #[trigger] groups[g],
                sigs,
                threshold,
                label,
                x,
                spec_leaders_upto(sigs, threshold, x)[g],
            ),
        forall|g: int, h: int|
            0 <= g < h < groups.len() ==> (#[trigger] groups[g]).0 != (#[trigger] groups[h]).0,
        forall|y: int| 0 <= y < x ==> #[trigger] spec_has_group(groups, label[y]),
{
    reveal(spec_groups_upto);
}

proof fn lemma_groups_close(
    groups: Seq<(int, Seq<int>)>,
    sigs: Seq<Seq<u64>>,
    threshold: Ratio,
    label: Seq<int>,
    x: int,
)
    requires
        groups.len() == spec_leaders_upto(sigs, threshold, x).len(),
        forall|g: int|
            0 <= g < groups.len() ==> spec_group_of(
                #[trigger] groups[g],
                sigs,
                threshold,
                label,
                x,
                spec_leaders_upto(sigs, threshold, x)[g],
            ),
        forall|g: int, h: int|
            0 <= g < h < groups.len() ==> (#[trigger] groups[g]).0 != (#[trigger] groups[h]).0,
        forall|y: int| 0 <= y < x ==> #[trigger] spec_has_group(groups, label[y]),
    ensures
        spec_groups_upto(groups, sigs, threshold, label, x),
{
    reveal(spec_groups_upto);
}

proof fn lemma_components_open(sigs: Seq<Seq<u64>>, threshold: Ratio, label: Seq<int>, x: int, y: int)
    requires
        spec_components(sigs, threshold, label),
        0 <= x < sigs.len(),
        0 <= y < sigs.len(),
    ensures
        label.len() == sigs.len(),
        label[x] == label[y] <==> spec_connected(sigs, threshold, x, y),
{
    reveal(spec_components);
}

/// Program `x` joins group `g`, which has its label.
proof fn lemma_groups_join(
    groups: Seq<(int, Seq<int>)>,
    sigs: Seq<Seq<u64>>,
    threshold: Ratio,
    label: Seq<int>,
    x: int,
    g: int,
)
    requires
        spec_groups_upto(groups, sigs, threshold, label, x),
        spec_components(sigs, threshold, label),
        0 <= x < sigs.len(),
        0 <= g < groups.len(),
        groups[g].0 == label[x],
    ensures
        spec_groups_upto(
            groups.update(g, (groups[g].0, groups[g].1.push(x))),
            sigs,
            threshold,
            label,
            x + 1,
        ),
{
    lemma_groups_open(groups, sigs, threshold, label, x);
    let leaders = spec_leaders_upto(sigs, threshold, x);
    let after = groups.update(g, (groups[g].0, groups[g].1.push(x)));
    let leader = leaders[g];
    assert(spec_group_of(groups[g], sigs, threshold, label, x, leader));
    lemma_components_open(sigs, threshold, label, leader, x);
    assert(spec_connected(sigs, threshold, leader, x));
    assert(!spec_leads(sigs, threshold, x)) by {
        reveal(spec_leads);
    }
    assert(spec_leaders_upto(sigs, threshold, x + 1) == leaders);
    assert forall|h: int| 0 <= h < after.len() implies spec_group_of(
        #[trigger] after[h],
        sigs,
        threshold,
        label,
        x + 1,
        leaders[h],
    ) by {
        let l = leaders[h];
        assert(spec_group_of(groups[h], sigs, threshold, label, x, l));
        if h != g {
            assert(after[h] == groups[h]);
            if h < g {
                assert(groups[h].0 != groups[g].0);
            } else {
                assert(groups[g].0 != groups[h].0);
            }
            lemma_components_open(sigs, threshold, label, l, x);
        }
    }
    assert forall|a: int, b: int| 0 <= a < b < after.len() implies (#[trigger] after[a]).0 != (
    #[trigger] after[b]).0 by {
        assert(groups[a].0 != groups[b].0);
        assert(after[a].0 == groups[a].0);
        assert(after[b].0 == groups[b].0);
    }
    assert forall|y: int| 0 <= y < x + 1 implies #[trigger] spec_has_group(after, label[y]) by {
        if y < x {
            assert(spec_has_group(groups, label[y]));
            let h = choose|h: int| 0 <= h < groups.len() && #[trigger] groups[h].0 == label[y];
            assert(after[h].0 == groups[h].0);
        } else {
            assert(after[g].0 == label[y]);
        }
    }
    lemma_groups_close(after, sigs, threshold, label, x + 1);
}

/// Program `x`, whose label no group has, starts a group of its own.
proof fn lemma_groups_new(
    groups: Seq<(int, Seq<int>)>,
    sigs: Seq<Seq<u64>>,
    threshold: Ratio,
    label: Seq<int>,
    x: int,
)
    requires
        spec_groups_upto(groups, sigs, threshold, label, x),
        spec_components(sigs, threshold, label),
        0 <= x < sigs.len(),
        forall|g: int| 0 <= g < groups.len() ==> #[trigger] groups[g].0 != label[x],
    ensures
        spec_groups_upto(groups.push((label[x], seq![x])), sigs, threshold, label, x + 1),
{
    lemma_groups_open(groups, sigs, threshold, label, x);
    let leaders = spec_leaders_upto(sigs, threshold, x);
    let after = groups.push((label[x], seq![x]));
    lemma_components_open(sigs, threshold, label, x, x);
    assert forall|k: int| 0 <= k < x implies !#[trigger] spec_connected(sigs, threshold, k, x) by {
        lemma_components_open(sigs, threshold, label, k, x);
        if spec_connected(sigs, threshold, k, x) {
            assert(spec_has_group(groups, label[k]));
            let h = choose|h: int| 0 <= h < groups.len() && #[trigger] groups[h].0 == label[k];
            assert(groups[h].0 != label[x]);
        }
    }
    assert forall|k: int| 0 <= k < x implies !#[trigger] spec_connected(sigs, threshold, x, k) by {
        lemma_components_open(sigs, threshold, label, k, x);
        lemma_components_open(sigs, threshold, label, x, k);
        assert(!spec_connected(sigs, threshold, k, x));
    }
    assert(spec_leads(sigs, threshold, x)) by {
        reveal(spec_leads);
    }
    let leaders2 = spec_leaders_upto(sigs, threshold, x + 1);
    assert(leaders2 == leaders.push(x));
    lemma_members_none(sigs, threshold, x, x);
    assert(spec_members_upto(sigs, threshold, x, x + 1) =~= seq![x]);
    assert forall|h: int| 0 <= h < after.len() implies spec_group_of(
        #[trigger] after[h],
        sigs,
        threshold,
        label,
        x + 1,
        leaders2[h],
    ) by {
        if h < groups.len() {
            let l = leaders[h];
            assert(spec_group_of(groups[h], sigs, threshold, label, x, l));
            assert(leaders2[h] == l);
            assert(after[h] == groups[h]);
            lemma_components_open(sigs, threshold, label, l, x);
            assert(groups[h].0 != label[x]);
        } else {
            assert(leaders2[h] == x);
            assert(after[h] == (label[x], seq![x]));
        }
    }
    assert forall|a: int, b: int| 0 <= a < b < after.len() implies (#[trigger] after[a]).0 != (
    #[trigger] after[b]).0 by {
        assert(after[a] == groups[a]);
        if b < groups.len() {
            assert(groups[a].0 != groups[b].0);
            assert(after[b] == groups[b]);
        } else {
            assert(groups[a].0 != label[x]);
            assert(after[b].0 == label[x]);
        }
    }
    assert forall|y: int| 0 <= y < x + 1 implies #[trigger] spec_has_group(after, label[y]) by {
        if y < x {
            assert(spec_has_group(groups, label[y]));
            let h = choose|h: int| 0 <= h < groups.len() && #[trigger] groups[h].0 == label[y];
            assert(after[h] == groups[h]);
        } else {
            assert(after[groups.len() as int].0 == label[y]);
        }
    }
    lemma_groups_close(after, sigs, threshold, label, x + 1);
}

/// Group the programs by label, in order of their first members: each
/// group is its label and its members in order.
fn group_programs(
    parent: &mut Vec<usize>,
    Ghost(sigs): Ghost<Seq<Seq<u64>>>,
    threshold: Ratio,
    Ghost(label): Ghost<Seq<int>>,
    Ghost(rank): Ghost<Seq<nat>>,
    Ghost(bound): Ghost<nat>,
) -> (groups: Vec<(usize, Vec<usize>)>)
    requires
        spec_forest(old(parent)@, label, rank, bound),
        old(parent)@.len() == sigs.len(),
        spec_components(sigs, threshold, label),
    ensures
        spec_groups_upto(spec_groups_view(groups@), sigs, threshold, label, sigs.len() as int),
{
    let n = parent.len();
    let mut groups: Vec<(usize, Vec<usize>)> = Vec::new();
    proof {
        lemma_groups_start(sigs, threshold, label);
        assert(spec_groups_view(groups@) =~= Seq::<(int, Seq<int>)>::empty());
    }
    let mut x: usize = 0;
    while x < n
        invariant
            n == sigs.len(),
            parent@.len() == n,
            spec_forest(parent@, label, rank, bound),
            spec_components(sigs, threshold, label),
            x <= n,
            spec_groups_upto(spec_groups_view(groups@), sigs, threshold, label, x as int),
        decreases n - x,
    {
        let r = find(parent, x, Ghost(label), Ghost(rank), Ghost(bound));
        let ghost gv = spec_groups_view(groups@);
        let mut g: usize = 0;
        while g < groups.len() && groups[g].0 != r
            invariant
                g <= groups@.len(),
                gv == spec_groups_view(groups@),
                forall|h: int| 0 <= h < g ==> (#[trigger] gv[h]).0 != r,
            decreases groups@.len() - g,
        {
            assert(gv[g as int].0 == groups@[g as int].0);
            g = g + 1;
        }
        if g < groups.len() {
            let mut entry = (0usize, Vec::new());
            std::mem::swap(&mut entry, &mut groups[g]);
            let ghost old_entry = entry;
            entry.1.push(x);
            proof {
                assert(gv[g as int] == (old_entry.0 as int, spec_group_members(old_entry.1@)));
                assert(spec_group_members(entry.1@) =~= spec_group_members(old_entry.1@).push(x as int));
            }
            groups.set(g, entry);
            proof {
                lemma_groups_join(gv, sigs, threshold, label, x as int, g as int);
                assert(spec_groups_view(groups@) =~= gv.update(
                    g as int,
                    (gv[g as int].0, gv[g as int].1.push(x as int)),
                ));
            }
        } else {
            let mut members: Vec<usize> = Vec::new();
            members.push(x);
            groups.push((r, members));
            proof {
                assert(spec_group_members(members@) =~= seq![x as int]);
                lemma_groups_new(gv, sigs, threshold, label, x as int);
                assert(spec_groups_view(groups@) =~= gv.push((label[x as int], seq![x as int])));
            }
        }
        x = x + 1;
    }
    groups
}

/// More members never make fewer pairs.
proof fn lemma_pair_count_monotone(a: nat, b: nat)
    requires
        a <= b,
    ensures
        spec_pair_count(a) <= spec_pair_count(b),
    decreases b - a,
{
    if a < b {
        lemma_pair_count_monotone(a, (b - 1) as nat);
    }
}

/// The number of pairs among `m` members, when a `usize` can count them.
fn pair_count(m: usize) -> (r: Option<usize>)
    ensures
        match r {
            Some(v) => v == spec_pair_count(m as nat),
            None => spec_pair_count(m as nat) > usize::MAX,
        },
{
    let mut count: usize = 0;
    let mut k: usize = 0;
    while k < m
        invariant
            k <= m,
            count == spec_pair_count(k as nat),
        decreases m - k,
    {
        match count.checked_add(k) {
            Some(c) => {
                count = c;
            },
            None => {
                proof {
                    assert(spec_pair_count((k + 1) as nat) == count + k);
                    lemma_pair_count_monotone((k + 1) as nat, m as nat);
                }
                return None;
            },
        }
        k = k + 1;
    }
    Some(count)
}

proof fn lemma_estimate_numerator_bound(a: Seq<u64>, b: Seq<u64>, num_hashes: usize)
    requires
        a.len() == num_hashes,
        b.len() == num_hashes,
    ensures
        spec_estimate_jaccard(a, b).numerator <= spec_estimate_denominator(num_hashes),
{
    crate::minhash::lemma_estimate_jaccard_symmetric_bounded(a, b);
}

/// The average estimate over every pair of the programs `members`.
fn average(
    signed: &Vec<(String, MinHashSignature)>,
    members: &Vec<usize>,
    num_hashes: usize,
) -> (avg: WideRatio)
    requires
        forall|k: int| 0 <= k < members@.len() ==> (#[trigger] members@[k]) < signed@.len(),
        forall|k: int| 0 <= k < signed@.len() ==> (#[trigger] signed@[k]).1.values@.len() == num_hashes,
        spec_pair_count(members@.len()) <= usize::MAX,
    ensures
        avg == spec_average(
            spec_sigs(spec_signed_view(signed@)),
            spec_group_members(members@),
            num_hashes,
        ),
{
    let ghost sigs = spec_sigs(spec_signed_view(signed@));
    let ghost ms = spec_group_members(members@);
    let m = members.len();
    if m < 2 {
        return WideRatio { numerator: 1, denominator: 1 };
    }
    let d: usize = if num_hashes == 0 {
        1
    } else {
        num_hashes
    };
    let ghost pc = spec_pair_count(m as nat);
    proof {
        assert(pc * d <= u128::MAX) by (nonlinear_arith)
            requires
                pc <= usize::MAX,
                d <= usize::MAX,
                usize::MAX <= u64::MAX,
        ;
    }
    let mut total: u128 = 0;
    let mut pairs: usize = 0;
    let mut b: usize = 0;
    while b < m
        invariant
            m == members@.len(),
            ms == spec_group_members(members@),
            sigs == spec_sigs(spec_signed_view(signed@)),
            forall|k: int| 0 <= k < members@.len() ==> (#[trigger] members@[k]) < signed@.len(),
            forall|k: int| 0 <= k < signed@.len() ==> (#[trigger] signed@[k]).1.values@.len() == num_hashes,
            d == spec_estimate_denominator(num_hashes),
            pc == spec_pair_count(m as nat),
            pc <= usize::MAX,
            pc * d <= u128::MAX,
            b <= m,
            total == spec_pairs_total(sigs, ms, b as int),
            pairs == spec_pair_count(b as nat),
            pairs <= pc,
            total <= pairs * d,
        decreases m - b,
    {
        let mut a: usize = 0;
        proof {
            lemma_pair_count_monotone((b + 1) as nat, m as nat);
        }
        while a < b
            invariant
                m == members@.len(),
                ms == spec_group_members(members@),
                sigs == spec_sigs(spec_signed_view(signed@)),
                forall|k: int| 0 <= k < members@.len() ==> (#[trigger] members@[k]) < signed@.len(),
                forall|k: int| 0 <= k < signed@.len() ==> (#[trigger] signed@[k]).1.values@.len() == num_hashes,
                d == spec_estimate_denominator(num_hashes),
                pc == spec_pair_count(m as nat),
                pc <= usize::MAX,
                pc * d <= u128::MAX,
                b < m,
                a <= b,
                spec_pair_count((b + 1) as nat) <= pc,
                total == spec_pairs_total(sigs, ms, b as int) + spec_row_total(sigs, ms, a as int, b as int),
                pairs == spec_pair_count(b as nat) + a,
                total <= pairs * d,
            decreases b - a,
        {
            let x = members[a];
            let y = members[b];
            let est = estimate_jaccard(&signed[x].1, &signed[y].1);
            proof {
                assert(ms[a as int] == x && ms[b as int] == y);
                assert(sigs[x as int] == signed@[x as int].1.values@);
                assert(sigs[y as int] == signed@[y as int].1.values@);
                lemma_estimate_numerator_bound(signed@[x as int].1.values@, signed@[y as int].1.values@, num_hashes);
                let p = pairs as int;
                assert(spec_pair_count((b + 1) as nat) == spec_pair_count(b as nat) + b);
                assert(p + 1 <= pc);
                assert((p + 1) * d <= pc * d) by (nonlinear_arith)
                    requires
                        p + 1 <= pc,
                        d >= 1,
                ;
                assert(total + est.numerator <= (p + 1) * d) by (nonlinear_arith)
                    requires
                        total <= p * d,
                        est.numerator <= d,
                ;
            }
            total = total + est.numerator as u128;
            pairs = pairs + 1;
            a = a + 1;
        }
        b = b + 1;
    }
    proof {
        assert(pairs * d == pc * d);
    }
    WideRatio { numerator: total, denominator: (pairs as u128) * (d as u128) }
}

/// Cluster number `id`, whose members are the programs `members`.
fn build_cluster(
    signed: &Vec<(String, MinHashSignature)>,
    members: &Vec<usize>,
    id: usize,
    num_hashes: usize,
) -> (cluster: Cluster)
    requires
        forall|k: int| 0 <= k < members@.len() ==> (#[trigger] members@[k]) < signed@.len(),
        forall|k: int| 0 <= k < signed@.len() ==> (#[trigger] signed@[k]).1.values@.len() == num_hashes,
        spec_pair_count(members@.len()) <= usize::MAX,
    ensures
        spec_cluster_view(cluster) == (
            id,
            spec_group_members(members@).map_values(|k: int| spec_signed_view(signed@)[k].0),
            spec_average(
                spec_sigs(spec_signed_view(signed@)),
                spec_group_members(members@),
                num_hashes,
            ),
        ),
{
    let ghost view = spec_signed_view(signed@);
    let mut paths: Vec<String> = Vec::new();
    let mut k: usize = 0;
    while k < members.len()
        invariant
            k <= members@.len(),
            view == spec_signed_view(signed@),
            forall|j: int| 0 <= j < members@.len() ==> (#[trigger] members@[j]) < signed@.len(),
            paths@.map_values(|s: String| s@) == spec_group_members(members@).take(k as int).map_values(
                |j: int| view[j].0,
            ),
        decreases members@.len() - k,
    {
        let path = signed[members[k]].0.clone();
        let ghost before = paths@;
        paths.push(path);
        proof {
            let ms = spec_group_members(members@);
            assert(ms.take(k + 1) =~= ms.take(k as int).push(members@[k as int] as int));
            assert(view[members@[k as int] as int].0 == signed@[members@[k as int] as int].0@);
            assert(paths@.map_values(|s: String| s@) =~= before.map_values(|s: String| s@).push(path@));
            assert(ms.take(k + 1).map_values(|j: int| view[j].0) =~= ms.take(k as int).map_values(
                |j: int| view[j].0,
            ).push(view[members@[k as int] as int].0));
        }
        k = k + 1;
    }
    proof {
        let ms = spec_group_members(members@);
        assert(ms.take(members@.len() as int) =~= ms);
    }
    let avg = average(signed, members, num_hashes);
    Cluster { id, members: paths, avg_similarity: avg }
}

/// Insert `cluster` into `clusters`, after every cluster at least as large.
fn insert_cluster(clusters: &mut Vec<Cluster>, cluster: Cluster) -> (pos: Ghost<int>)
    requires
        forall|i: int, j: int|
            0 <= i < j < old(clusters)@.len() ==> (#[trigger] old(clusters)@[i]).members@.len() >= (
            #[trigger] old(clusters)@[j]).members@.len(),
    ensures
        0 <= pos@ <= old(clusters)@.len(),
        final(clusters)@ == old(clusters)@.insert(pos@, cluster),
        forall|i: int| 0 <= i < pos@ ==> (#[trigger] old(clusters)@[i]).members@.len() >= cluster.members@.len(),
        forall|i: int|
            pos@ <= i < old(clusters)@.len() ==> (#[trigger] old(clusters)@[i]).members@.len()
                < cluster.members@.len(),
{
    let ghost before = clusters@;
    let size = cluster.members.len();
    let mut p: usize = 0;
    while p < clusters.len() && clusters[p].members.len() >= size
        invariant
            p <= clusters@.len(),
            clusters@ == before,
            size == cluster.members@.len(),
            forall|i: int| 0 <= i < p ==> (#[trigger] clusters@[i]).members@.len() >= size,
        decreases clusters@.len() - p,
    {
        p = p + 1;
    }
    proof {
        assert forall|i: int| p <= i < before.len() implies (#[trigger] before[i]).members@.len()
            < size by {
            assert(before[p as int].members@.len() >= before[i].members@.len() || i == p);
        }
    }
    clusters.insert(p, cluster);
    Ghost(p as int)
}

proof fn lemma_members_within(sigs: Seq<Seq<u64>>, threshold: Ratio, r: int, m: int)
    requires
        0 <= m,
    ensures
        spec_members_upto(sigs, threshold, r, m).len() <= m,
        forall|k: int|
            0 <= k < spec_members_upto(sigs, threshold, r, m).len() ==> 0 <= #[trigger] spec_members_upto(
                sigs,
                threshold,
                r,
                m,
            )[k] < m,
    decreases m,
{
    if m > 0 {
        lemma_members_within(sigs, threshold, r, m - 1);
        let earlier = spec_members_upto(sigs, threshold, r, m - 1);
        assert forall|k: int| 0 <= k < spec_members_upto(sigs, threshold, r, m).len() implies 0
            <= #[trigger] spec_members_upto(sigs, threshold, r, m)[k] < m by {
            if k < earlier.len() {
                assert(spec_members_upto(sigs, threshold, r, m)[k] == earlier[k]);
            }
        }
    }
}

proof fn lemma_components_close(sigs: Seq<Seq<u64>>, threshold: Ratio, label: Seq<int>)
    requires
        label.len() == sigs.len(),
        forall|x: int, y: int|
            #![trigger label[x], label[y]]
            #![trigger spec_connected(sigs, threshold, x, y)]
            0 <= x < sigs.len() && 0 <= y < sigs.len() ==> (label[x] == label[y]
                <==> spec_connected(sigs, threshold, x, y)),
    ensures
        spec_components(sigs, threshold, label),
{
    reveal(spec_components);
}

/// Whether a `usize` can count the pairs of members of cluster number `g`
/// of the programs `sigs`.
pub open spec fn spec_cluster_fits(sigs: Seq<Seq<u64>>, threshold: Ratio, g: int) -> bool {
    let n = sigs.len() as int;
    let leader = spec_leaders_upto(sigs, threshold, n)[g];
    spec_pair_count(spec_members_upto(sigs, threshold, leader, n).len()) <= usize::MAX
}

/// Whether a `usize` can count the pairs of members of every cluster of the
/// programs `sigs`.
pub open spec fn spec_pairs_countable(sigs: Seq<Seq<u64>>, threshold: Ratio) -> bool {
    forall|g: int|
        0 <= g < spec_leaders_upto(sigs, threshold, sigs.len() as int).len()
            ==> #[trigger] spec_cluster_fits(sigs, threshold, g)
}

/// The message reported when a cluster has more pairs of members than a
/// `usize` can count.
pub open spec fn spec_oversized_cluster_text() -> Seq<char> {
    "a cluster has more member pairs than a usize can count"@
}

/// Cluster the program files `files` (paths and contents): every file that
/// loads as an ELF program whose text section yields n-grams is signed, two
/// programs whose MinHash estimate is at least `threshold` are linked, and
/// each group of programs connected by links makes a cluster. It fails on
/// the first program whose text cannot be cut into n-grams of width
/// `ngram_size`, and when some cluster has more pairs of members than a
/// `usize` can count. The threshold has a positive denominator.
pub fn cluster_directory(
    files: &[ProgramFile],
    threshold: Ratio,
    ngram_size: usize,
    num_hashes: usize,
) -> (res: Result<ClusterResult, String>)
    requires
        threshold.denominator > 0,
    ensures
        match spec_width_failure(spec_files(files@), ngram_size) {
            Some(path) => res matches Err(msg) && msg@ == spec_width_error(ngram_size, path),
            None => if spec_pairs_countable(
                spec_sigs(spec_signed(spec_files(files@), ngram_size, num_hashes)),
                threshold,
            ) {
                res matches Ok(result) && spec_signed_view(result.signatures@) == spec_signed(
                    spec_files(files@),
                    ngram_size,
                    num_hashes,
                ) && spec_clusters_of(
                    spec_signed(spec_files(files@), ngram_size, num_hashes),
                    threshold,
                    num_hashes,
                    result.clusters@,
                )
            } else {
                res matches Err(msg) && msg@ == spec_oversized_cluster_text()
            },
        },
{
    let signed = match sign_programs(files, ngram_size, num_hashes) {
        Ok(signed) => signed,
        Err(msg) => {
            return Err(msg);
        },
    };
    let ghost signed_view = spec_signed_view(signed@);
    let ghost sigs = spec_sigs(signed_view);
    let (mut parent, uf) = link_programs(&signed, &threshold);
    let ghost label = uf@.0;
    proof {
        lemma_components_close(sigs, threshold, label);
    }
    let groups = group_programs(
        &mut parent,
        Ghost(sigs),
        threshold,
        Ghost(uf@.0),
        Ghost(uf@.1),
        Ghost(uf@.2),
    );
    let ghost n = sigs.len() as int;
    let ghost leaders = spec_leaders_upto(sigs, threshold, n);
    proof {
        lemma_groups_open(spec_groups_view(groups@), sigs, threshold, label, n);
    }
    let mut clusters: Vec<Cluster> = Vec::new();
    let mut g: usize = 0;
    while g < groups.len()
        invariant
            signed_view == spec_signed_view(signed@),
            signed_view == spec_signed(spec_files(files@), ngram_size, num_hashes),
            spec_width_failure(spec_files(files@), ngram_size) is None,
            sigs == spec_sigs(signed_view),
            n == sigs.len(),
            leaders == spec_leaders_upto(sigs, threshold, n),
            forall|k: int| 0 <= k < signed@.len() ==> (#[trigger] signed@[k]).1.values@.len() == num_hashes,
            groups@.len() == leaders.len(),
            forall|h: int|
                0 <= h < groups@.len() ==> spec_group_of(
                    #[trigger] spec_groups_view(groups@)[h],
                    sigs,
                    threshold,
                    label,
                    n,
                    leaders[h],
                ),
            g <= groups@.len(),
            forall|h: int| 0 <= h < g ==> #[trigger] spec_cluster_fits(sigs, threshold, h),
            clusters@.len() == g,
            forall|c: int|
                0 <= c < clusters@.len() ==> (#[trigger] clusters@[c]).id < g
                    && spec_cluster_view(clusters@[c]) == spec_cluster_of(
                    signed_view,
                    threshold,
                    num_hashes,
                    clusters@[c].id as int,
                ),
            forall|c: int, d: int|
                0 <= c < d < clusters@.len() ==> (#[trigger] clusters@[c]).id != (
                #[trigger] clusters@[d]).id,
            forall|c: int, d: int|
                0 <= c < d < clusters@.len() ==> (#[trigger] clusters@[c]).members@.len() > (
                #[trigger] clusters@[d]).members@.len() || (clusters@[c].members@.len()
                    == clusters@[d].members@.len() && clusters@[c].id < clusters@[d].id),
        decreases groups@.len() - g,
    {
        let members = &groups[g].1;
        let ghost ms = spec_group_members(members@);
        proof {
            assert(spec_group_of(spec_groups_view(groups@)[g as int], sigs, threshold, label, n, leaders[g as int]));
            assert(spec_groups_view(groups@)[g as int].1 == ms);
            lemma_members_within(sigs, threshold, leaders[g as int], n);
            assert forall|k: int| 0 <= k < members@.len() implies (#[trigger] members@[k]) < signed@.len() by {
                assert(ms[k] == members@[k] as int);
            }
            assert(ms.len() == members@.len());
        }
        if pair_count(members.len()).is_none() {
            proof {
                assert(!spec_cluster_fits(sigs, threshold, g as int));
                reveal_strlit("a cluster has more member pairs than a usize can count");
            }
            let msg = String::from_str("a cluster has more member pairs than a usize can count");
            proof {
                assert(g < leaders.len());
                assert(!spec_pairs_countable(sigs, threshold));
                assert(msg@ == spec_oversized_cluster_text());
            }
            return Err(msg);
        }
        proof {
            assert(spec_cluster_fits(sigs, threshold, g as int));
        }
        let cluster = build_cluster(&signed, members, g, num_hashes);
        proof {
            assert(spec_cluster_view(cluster) == spec_cluster_of(signed_view, threshold, num_hashes, g as int));
            assert forall|i: int, j: int| 0 <= i < j < clusters@.len() implies (#[trigger] clusters@[i]).members@.len() >= (
                #[trigger] clusters@[j]).members@.len() by {}
        }
        let ghost before = clusters@;
        let ghost new_cluster = cluster;
        let pos = insert_cluster(&mut clusters, cluster);
        proof {
            let p = pos@;
            assert forall|c: int|
                0 <= c < clusters@.len() implies (#[trigger] clusters@[c]).id < g + 1
                    && spec_cluster_view(clusters@[c]) == spec_cluster_of(
                    signed_view,
                    threshold,
                    num_hashes,
                    clusters@[c].id as int,
                ) by {
                if c < p {
                    assert(clusters@[c] == before[c]);
                } else if c > p {
                    assert(clusters@[c] == before[c - 1]);
                }
            }
            assert forall|c: int, d: int|
                0 <= c < d < clusters@.len() implies (#[trigger] clusters@[c]).id != (
                #[trigger] clusters@[d]).id by {
                let bc = if c < p { c } else { c - 1 };
                let bd = if d < p { d } else { d - 1 };
                if c != p && d != p {
                    assert(clusters@[c] == before[bc] && clusters@[d] == before[bd]);
                } else if c == p {
                    assert(clusters@[d] == before[bd]);
                } else {
                    assert(clusters@[c] == before[bc]);
                }
            }
            assert forall|c: int, d: int|
                0 <= c < d < clusters@.len() implies (#[trigger] clusters@[c]).members@.len() > (
                #[trigger] clusters@[d]).members@.len() || (clusters@[c].members@.len()
                    == clusters@[d].members@.len() && clusters@[c].id < clusters@[d].id) by {
                if d < p {
                    assert(clusters@[c] == before[c] && clusters@[d] == before[d]);
                } else if d == p {
                    assert(clusters@[c] == before[c]);
                } else if c < p {
                    assert(clusters@[c] == before[c] && clusters@[d] == before[d - 1]);
                } else if c == p {
                    assert(clusters@[d] == before[d - 1]);
                } else {
                    assert(clusters@[c] == before[c - 1] && clusters@[d] == before[d - 1]);
                }
            }
        }
        g = g + 1;
    }
    proof {
        assert(spec_pairs_countable(sigs, threshold));
    }
    Ok(ClusterResult { clusters, signatures: signed })
}

} // verus!

verus! {

/// Connection is an equivalence on the programs: reflexive, symmetric and
/// transitive.
pub proof fn lemma_connected_equivalence(sigs: Seq<Seq<u64>>, threshold: Ratio, x: int, y: int, z: int)
    requires
        0 <= x < sigs.len(),
    ensures
        spec_connected(sigs, threshold, x, x),
        spec_connected(sigs, threshold, x, y) ==> spec_connected(sigs, threshold, y, x),
        spec_connected(sigs, threshold, x, y) && spec_connected(sigs, threshold, y, z)
            ==> spec_connected(sigs, threshold, x, z),
{
    reveal(spec_connected);
    let n = sigs.len() as int;
    lemma_walk_single(sigs, threshold, n, 0, x);
    if spec_connected(sigs, threshold, x, y) {
        let w = choose|w: Seq<int>|
            #[trigger] spec_walk_before(sigs, threshold, n, 0, w) && w[0] == x && w.last() == y;
        let r = w.reverse();
        assert forall|k: int| 0 <= k < r.len() implies 0 <= #[trigger] r[k] < sigs.len() by {
            assert(r[k] == w[w.len() - 1 - k]);
        }
        assert forall|k: int| 0 <= k < r.len() - 1 implies spec_link_before(
            sigs,
            threshold,
            n,
            0,
            #[trigger] r[k],
            r[k + 1],
        ) by {
            let j = w.len() - 2 - k;
            assert(r[k] == w[j + 1] && r[k + 1] == w[j]);
            assert(spec_link_before(sigs, threshold, n, 0, w[j], w[j + 1]));
        }
        assert(spec_walk_before(sigs, threshold, n, 0, r));
        assert(r[0] == y && r.last() == x);
        if spec_connected(sigs, threshold, y, z) {
            let w2 = choose|w: Seq<int>|
                #[trigger] spec_walk_before(sigs, threshold, n, 0, w) && w[0] == y && w.last() == z;
            if w2.len() == 1 {
                assert(w.last() == z);
            } else {
                let tail = w2.drop_first();
                assert forall|k: int| 0 <= k < tail.len() implies 0 <= #[trigger] tail[k] < sigs.len() by {
                    assert(tail[k] == w2[k + 1]);
                }
                assert forall|k: int| 0 <= k < tail.len() - 1 implies spec_link_before(
                    sigs,
                    threshold,
                    n,
                    0,
                    #[trigger] tail[k],
                    tail[k + 1],
                ) by {
                    assert(tail[k] == w2[k + 1] && tail[k + 1] == w2[k + 2]);
                    assert(spec_link_before(sigs, threshold, n, 0, w2[k + 1], w2[k + 2]));
                }
                assert(spec_link_before(sigs, threshold, n, 0, w2[0], w2[1]));
                lemma_walk_join(sigs, threshold, n, 0, n, 0, w, tail);
                assert((w + tail).last() == z);
            }
        }
    }
}

proof fn lemma_members_contains(sigs: Seq<Seq<u64>>, threshold: Ratio, r: int, m: int, k: int)
    requires
        0 <= k < m,
    ensures
        spec_members_upto(sigs, threshold, r, m).contains(k) <==> spec_connected(sigs, threshold, r, k),
    decreases m,
{
    lemma_members_within(sigs, threshold, r, m - 1);
    let earlier = spec_members_upto(sigs, threshold, r, m - 1);
    let now = spec_members_upto(sigs, threshold, r, m);
    if k < m - 1 {
        lemma_members_contains(sigs, threshold, r, m - 1, k);
        if now.contains(k) {
            let i = choose|i: int| 0 <= i < now.len() && now[i] == k;
            if i < earlier.len() {
                assert(earlier[i] == k);
            }
        }
        if earlier.contains(k) {
            let i = choose|i: int| 0 <= i < earlier.len() && earlier[i] == k;
            assert(now[i] == k);
        }
    } else {
        if now.contains(k) {
            let i = choose|i: int| 0 <= i < now.len() && now[i] == k;
            if i < earlier.len() {
                assert(earlier[i] == k);
            }
        }
        if spec_connected(sigs, threshold, r, k) {
            assert(now[earlier.len() as int] == k);
        }
    }
}

proof fn lemma_leaders_ordered(sigs: Seq<Seq<u64>>, threshold: Ratio, m: int)
    requires
        0 <= m,
    ensures
        forall|g: int|
            0 <= g < spec_leaders_upto(sigs, threshold, m).len() ==> 0 <= #[trigger] spec_leaders_upto(
                sigs,
                threshold,
                m,
            )[g] < m && spec_leads(sigs, threshold, spec_leaders_upto(sigs, threshold, m)[g]),
        forall|g: int, h: int|
            0 <= g < h < spec_leaders_upto(sigs, threshold, m).len() ==> #[trigger] spec_leaders_upto(
                sigs,
                threshold,
                m,
            )[g] < #[trigger] spec_leaders_upto(sigs, threshold, m)[h],
        forall|j: int|
            0 <= j < m && #[trigger] spec_leads(sigs, threshold, j) ==> spec_leaders_upto(
                sigs,
                threshold,
                m,
            ).contains(j),
    decreases m,
{
    if m > 0 {
        lemma_leaders_ordered(sigs, threshold, m - 1);
        let earlier = spec_leaders_upto(sigs, threshold, m - 1);
        let now = spec_leaders_upto(sigs, threshold, m);
        assert forall|g: int| 0 <= g < now.len() implies 0 <= #[trigger] now[g] < m && spec_leads(
            sigs,
            threshold,
            now[g],
        ) by {
            if g < earlier.len() {
                assert(now[g] == earlier[g]);
            }
        }
        assert forall|g: int, h: int| 0 <= g < h < now.len() implies #[trigger] now[g]
            < #[trigger] now[h] by {
            assert(now[g] == earlier[g]);
            if h < earlier.len() {
                assert(now[h] == earlier[h]);
            }
        }
        assert forall|j: int| 0 <= j < m && #[trigger] spec_leads(sigs, threshold, j) implies now.contains(
            j,
        ) by {
            if j < m - 1 {
                let i = choose|i: int| 0 <= i < earlier.len() && earlier[i] == j;
                assert(now[i] == j);
            } else {
                assert(now[earlier.len() as int] == j);
            }
        }
    }
}

proof fn lemma_first_connected(sigs: Seq<Seq<u64>>, threshold: Ratio, k: int, i: int) -> (j: int)
    requires
        0 <= i <= k < sigs.len(),
        forall|j2: int| 0 <= j2 < i ==> !#[trigger] spec_connected(sigs, threshold, j2, k),
    ensures
        i <= j <= k,
        spec_connected(sigs, threshold, j, k),
        forall|j2: int| 0 <= j2 < j ==> !#[trigger] spec_connected(sigs, threshold, j2, k),
    decreases k - i,
{
    if spec_connected(sigs, threshold, i, k) {
        i
    } else {
        if i == k {
            lemma_connected_equivalence(sigs, threshold, k, k, k);
        }
        lemma_first_connected(sigs, threshold, k, i + 1)
    }
}

/// The clusters partition the programs: every program is a member of
/// exactly one cluster.
pub proof fn lemma_clusters_partition(sigs: Seq<Seq<u64>>, threshold: Ratio, k: int)
    requires
        0 <= k < sigs.len(),
    ensures
        exists|g: int|
            0 <= g < spec_leaders_upto(sigs, threshold, sigs.len() as int).len()
                && #[trigger] spec_members_upto(
                sigs,
                threshold,
                spec_leaders_upto(sigs, threshold, sigs.len() as int)[g],
                sigs.len() as int,
            ).contains(k),
        forall|g1: int, g2: int|
            0 <= g1 < spec_leaders_upto(sigs, threshold, sigs.len() as int).len() && 0 <= g2
                < spec_leaders_upto(sigs, threshold, sigs.len() as int).len()
                && #[trigger] spec_members_upto(
                sigs,
                threshold,
                spec_leaders_upto(sigs, threshold, sigs.len() as int)[g1],
                sigs.len() as int,
            ).contains(k) && #[trigger] spec_members_upto(
                sigs,
                threshold,
                spec_leaders_upto(sigs, threshold, sigs.len() as int)[g2],
                sigs.len() as int,
            ).contains(k) ==> g1 == g2,
{
    let n = sigs.len() as int;
    let leaders = spec_leaders_upto(sigs, threshold, n);
    lemma_leaders_ordered(sigs, threshold, n);
    let j = lemma_first_connected(sigs, threshold, k, 0);
    assert(spec_leads(sigs, threshold, j)) by {
        reveal(spec_leads);
        assert forall|j2: int| 0 <= j2 < j implies !#[trigger] spec_connected(sigs, threshold, j2, j) by {
            lemma_connected_equivalence(sigs, threshold, j2, j, k);
        }
    }
    assert(leaders.contains(j));
    let g = choose|g: int| 0 <= g < leaders.len() && leaders[g] == j;
    lemma_members_contains(sigs, threshold, j, n, k);
    assert(spec_members_upto(sigs, threshold, leaders[g], n).contains(k));
    assert forall|g1: int, g2: int|
        0 <= g1 < leaders.len() && 0 <= g2 < leaders.len() && #[trigger] spec_members_upto(
            sigs,
            threshold,
            leaders[g1],
            n,
        ).contains(k) && #[trigger] spec_members_upto(sigs, threshold, leaders[g2], n).contains(k)
        implies g1 == g2 by {
        let l1 = leaders[g1];
        let l2 = leaders[g2];
        lemma_members_contains(sigs, threshold, l1, n, k);
        lemma_members_contains(sigs, threshold, l2, n, k);
        if g1 != g2 {
            let (a, b) = if g1 < g2 {
                (l1, l2)
            } else {
                (l2, l1)
            };
            assert(a < b);
            lemma_connected_equivalence(sigs, threshold, b, k, k);
            lemma_connected_equivalence(sigs, threshold, a, k, b);
            assert(spec_connected(sigs, threshold, a, b));
            assert(spec_leads(sigs, threshold, b));
            assert(!spec_connected(sigs, threshold, a, b)) by {
                reveal(spec_leads);
            }
        }
    }
}

/// The average similarity of a cluster of two programs is the MinHash
/// estimate of one's signature against the other's, and that of a single
/// program is one.
pub proof fn lemma_average_of_pair(sigs: Seq<Seq<u64>>, members: Seq<int>, num_hashes: usize)
    requires
        forall|k: int| 0 <= k < members.len() ==> 0 <= #[trigger] members[k] < sigs.len(),
        forall|k: int| 0 <= k < members.len() ==> sigs[#[trigger] members[k]].len() == num_hashes,
    ensures
        members.len() == 2 ==> spec_average(sigs, members, num_hashes) == (WideRatio {
            numerator: spec_estimate_jaccard(sigs[members[0]], sigs[members[1]]).numerator as u128,
            denominator: spec_estimate_jaccard(sigs[members[0]], sigs[members[1]]).denominator as u128,
        }),
        members.len() == 1 ==> spec_average(sigs, members, num_hashes) == (WideRatio {
            numerator: 1,
            denominator: 1,
        }),
        members.len() == 3 ==> spec_average(sigs, members, num_hashes) == (WideRatio {
            numerator: (spec_estimate_jaccard(sigs[members[0]], sigs[members[1]]).numerator
                + spec_estimate_jaccard(sigs[members[0]], sigs[members[2]]).numerator
                + spec_estimate_jaccard(sigs[members[1]], sigs[members[2]]).numerator) as u128,
            denominator: (3 * spec_estimate_jaccard(sigs[members[0]], sigs[members[1]]).denominator) as u128,
        }),
{
    if members.len() == 2 {
        reveal_with_fuel(spec_pair_count, 3);
        reveal_with_fuel(spec_pairs_total, 3);
        reveal_with_fuel(spec_row_total, 3);
        let a = sigs[members[0]];
        let b = sigs[members[1]];
        assert(a.len() == num_hashes && b.len() == num_hashes);
        assert(spec_pair_count(2) == 1);
        assert(spec_pairs_total(sigs, members, 2) == spec_estimate_jaccard(a, b).numerator);
    }
    if members.len() == 3 {
        reveal_with_fuel(spec_pair_count, 4);
        reveal_with_fuel(spec_pairs_total, 4);
        reveal_with_fuel(spec_row_total, 4);
        let (a, b, c) = (sigs[members[0]], sigs[members[1]], sigs[members[2]]);
        assert(a.len() == num_hashes && b.len() == num_hashes && c.len() == num_hashes);
        assert(spec_pair_count(3) == 3);
        assert(spec_pairs_total(sigs, members, 3) == spec_estimate_jaccard(a, b).numerator
            + spec_estimate_jaccard(a, c).numerator + spec_estimate_jaccard(b, c).numerator);
    }
}

/// Whether the estimate of the earlier of programs `a` and `b` against the
/// later reaches `threshold`, compared as fractions.
pub open spec fn spec_reaches(sigs: Seq<Seq<u64>>, threshold: Ratio, a: int, b: int) -> bool {
    let e = if a < b {
        spec_estimate_jaccard(sigs[a], sigs[b])
    } else {
        spec_estimate_jaccard(sigs[b], sigs[a])
    };
    e.numerator * threshold.denominator >= threshold.numerator * e.denominator
}

/// Two distinct programs whose estimate reaches the threshold are connected,
/// and a program whose estimate reaches the threshold with no other program
/// is connected to itself alone.
pub proof fn lemma_connection_by_estimates(sigs: Seq<Seq<u64>>, threshold: Ratio, x: int, y: int)
    requires
        0 <= x < sigs.len(),
        0 <= y < sigs.len(),
    ensures
        x != y && spec_reaches(sigs, threshold, x, y) ==> spec_connected(sigs, threshold, x, y),
        (forall|z: int| 0 <= z < sigs.len() && z != x ==> !#[trigger] spec_reaches(sigs, threshold, x, z))
            ==> (spec_connected(sigs, threshold, x, y) <==> x == y),
{
    reveal(spec_connected);
    let n = sigs.len() as int;
    if x != y && spec_reaches(sigs, threshold, x, y) {
        assert(spec_linked(sigs, threshold, x, y));
        assert(spec_pair_before(x, y, n, 0));
        lemma_link_connects(sigs, threshold, n, 0, x, y);
    }
    lemma_walk_single(sigs, threshold, n, 0, x);
    if (forall|z: int| 0 <= z < sigs.len() && z != x ==> !#[trigger] spec_reaches(sigs, threshold, x, z))
        && spec_connected(sigs, threshold, x, y) {
        let w = choose|w: Seq<int>|
            #[trigger] spec_walk_before(sigs, threshold, n, 0, w) && w[0] == x && w.last() == y;
        if w.len() > 1 {
            assert(spec_link_before(sigs, threshold, n, 0, w[0], w[1]));
            assert(!spec_reaches(sigs, threshold, x, w[1]));
        }
    }
}

} // verus!
