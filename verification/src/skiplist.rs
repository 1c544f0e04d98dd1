//! Ordered index: a skip list over byte-string keys, the mutable staging
//! structure whose contents a caller flushes, in key order, into a table
//! builder.
//!
//! Nodes live in an arena of owned entries addressed by stable indices;
//! index 0 is a sentinel head that anchors every level and never holds a
//! key, and 0 in a successor slot means "end of chain". At every level the
//! chain of successors is strictly increasing by key, and a node appears in
//! the chains of exactly the levels below its randomly chosen height. A
//! deleted node is unlinked from every chain and its arena slot is simply
//! no longer referenced.

use vstd::prelude::*;
use crate::utils::{lex_lt, lemma_lex_total, lemma_lex_trans, key_lt, key_eq, copy_bytes};

verus! {

struct SkipNode {
    key: Vec<u8>,
    val: Vec<u8>,
    next: Vec<usize>,
}

/// The successor slots of chain members at level `l` spell out `c` in order,
/// starting from the head.
spec fn chain_links_ok(nodes: Seq<SkipNode>, c: Seq<int>, l: int) -> bool {
    &&& forall|p: int| 0 <= p < c.len() ==> 1 <= #[trigger] c[p] < nodes.len()
    &&& forall|p: int| 0 <= p < c.len() ==> l < (#[trigger] nodes[c[p]].next)@.len()
    &&& nodes[0].next@[l] as int == (if c.len() == 0 {
        0int
    } else {
        c[0]
    })
    &&& forall|p: int|
        0 <= p < c.len() ==> (#[trigger] nodes[c[p]].next)@[l] as int == (if p + 1 < c.len() {
            c[p + 1]
        } else {
            0int
        })
}

/// Keys along the chain are strictly increasing.
spec fn chain_sorted(nodes: Seq<SkipNode>, c: Seq<int>) -> bool {
    forall|p: int, q: int|
        0 <= p < q < c.len() ==> lex_lt(nodes[#[trigger] c[p]].key@, nodes[#[trigger] c[q]].key@)
}

/// The key-value map a chain denotes, inserted in chain order.
spec fn kv_map(nodes: Seq<SkipNode>, c: Seq<int>) -> Map<Seq<u8>, Seq<u8>>
    decreases c.len(),
{
    if c.len() == 0 {
        Map::empty()
    } else {
        kv_map(nodes, c.drop_last()).insert(nodes[c.last()].key@, nodes[c.last()].val@)
    }
}

/// Every chain key is in the map.
proof fn lemma_kv_map_has(nodes: Seq<SkipNode>, c: Seq<int>, p: int)
    requires
        0 <= p < c.len(),
    ensures
        kv_map(nodes, c).contains_key(nodes[c[p]].key@),
    decreases c.len(),
{
    if p + 1 < c.len() {
        lemma_kv_map_has(nodes, c.drop_last(), p);
    }
}

/// A key on no chain node is not in the map.
proof fn lemma_kv_map_absent(nodes: Seq<SkipNode>, c: Seq<int>, k: Seq<u8>)
    requires
        forall|p: int| 0 <= p < c.len() ==> nodes[#[trigger] c[p]].key@ != k,
    ensures
        !kv_map(nodes, c).contains_key(k),
    decreases c.len(),
{
    if c.len() > 0 {
        lemma_kv_map_absent(nodes, c.drop_last(), k);
    }
}

/// The map sends the key of chain node `p` to its value, provided no later
/// chain node carries the same key.
proof fn lemma_kv_map_get(nodes: Seq<SkipNode>, c: Seq<int>, p: int)
    requires
        0 <= p < c.len(),
        forall|q: int| p < q < c.len() ==> nodes[#[trigger] c[q]].key@ != nodes[c[p]].key@,
    ensures
        kv_map(nodes, c)[nodes[c[p]].key@] == nodes[c[p]].val@,
    decreases c.len(),
{
    if p + 1 < c.len() {
        lemma_kv_map_get(nodes, c.drop_last(), p);
    }
}

/// The map only looks at the key and value of each chain node.
proof fn lemma_kv_map_congr(nodes1: Seq<SkipNode>, nodes2: Seq<SkipNode>, c: Seq<int>)
    requires
        forall|p: int| 0 <= p < c.len() ==> 0 <= #[trigger] c[p] < nodes1.len(),
        forall|p: int| 0 <= p < c.len() ==> 0 <= #[trigger] c[p] < nodes2.len(),
        forall|p: int|
            0 <= p < c.len() ==> nodes1[#[trigger] c[p]].key@ == nodes2[c[p]].key@ && nodes1[c[p]].val@
                == nodes2[c[p]].val@,
    ensures
        kv_map(nodes1, c) == kv_map(nodes2, c),
    decreases c.len(),
{
    if c.len() > 0 {
        lemma_kv_map_congr(nodes1, nodes2, c.drop_last());
    }
}

/// Inserting a fresh-keyed node at any chain position inserts its pair into
/// the map.
proof fn lemma_kv_map_insert(nodes: Seq<SkipNode>, c: Seq<int>, p: int, i: int)
    requires
        0 <= p <= c.len(),
        0 <= i < nodes.len(),
        forall|q: int| 0 <= q < c.len() ==> nodes[#[trigger] c[q]].key@ != nodes[i].key@,
    ensures
        kv_map(nodes, c.insert(p, i)) == kv_map(nodes, c).insert(nodes[i].key@, nodes[i].val@),
    decreases c.len(),
{
    let c2 = c.insert(p, i);
    if p == c.len() {
        assert(c2.drop_last() =~= c);
        assert(c2.last() == i);
    } else {
        assert(c2.last() == c.last());
        assert(c2.drop_last() =~= c.drop_last().insert(p, i));
        lemma_kv_map_insert(nodes, c.drop_last(), p, i);
        let m = kv_map(nodes, c.drop_last());
        let ki = nodes[i].key@;
        let vi = nodes[i].val@;
        let kl = nodes[c.last()].key@;
        let vl = nodes[c.last()].val@;
        assert(kl != ki);
        assert(m.insert(ki, vi).insert(kl, vl) =~= m.insert(kl, vl).insert(ki, vi));
    }
}

/// Changing only the value stored at chain node `p` updates its key's entry.
proof fn lemma_kv_map_update(nodes1: Seq<SkipNode>, nodes2: Seq<SkipNode>, c: Seq<int>, p: int)
    requires
        0 <= p < c.len(),
        forall|q: int| 0 <= q < c.len() ==> 0 <= #[trigger] c[q] < nodes1.len(),
        forall|q: int| 0 <= q < c.len() ==> 0 <= #[trigger] c[q] < nodes2.len(),
        nodes2[c[p]].key@ == nodes1[c[p]].key@,
        forall|q: int|
            0 <= q < c.len() && q != p ==> nodes2[#[trigger] c[q]].key@ == nodes1[c[q]].key@
                && nodes2[c[q]].val@ == nodes1[c[q]].val@,
        forall|q: int| 0 <= q < c.len() && q != p ==> nodes1[#[trigger] c[q]].key@ != nodes1[c[p]].key@,
    ensures
        kv_map(nodes2, c) == kv_map(nodes1, c).insert(nodes1[c[p]].key@, nodes2[c[p]].val@),
    decreases c.len(),
{
    let kp = nodes1[c[p]].key@;
    let vp = nodes2[c[p]].val@;
    if p == c.len() - 1 {
        assert forall|q: int| 0 <= q < c.drop_last().len() implies nodes2[#[trigger] c.drop_last()[q]].key@
            == nodes1[c.drop_last()[q]].key@ && nodes2[c.drop_last()[q]].val@ == nodes1[c.drop_last()[q]].val@ by {
            assert(c.drop_last()[q] == c[q]);
        }
        lemma_kv_map_congr(nodes1, nodes2, c.drop_last());
        assert(kv_map(nodes1, c.drop_last()).insert(kp, nodes1[c[p]].val@).insert(kp, vp) =~= kv_map(
            nodes1,
            c.drop_last(),
        ).insert(kp, vp));
    } else {
        lemma_kv_map_update(nodes1, nodes2, c.drop_last(), p);
        let kl = nodes1[c.last()].key@;
        let vl = nodes1[c.last()].val@;
        assert(nodes2[c.last()].key@ == kl && nodes2[c.last()].val@ == vl);
        assert(kl != kp);
        let m = kv_map(nodes1, c.drop_last());
        assert(m.insert(kp, vp).insert(kl, vl) =~= m.insert(kl, vl).insert(kp, vp));
    }
}

/// Unlinking chain node `p` removes exactly its key from the map, provided
/// chain keys are pairwise distinct.
proof fn lemma_kv_map_remove(nodes: Seq<SkipNode>, c: Seq<int>, p: int)
    requires
        0 <= p < c.len(),
        forall|q1: int, q2: int|
            0 <= q1 < q2 < c.len() ==> nodes[#[trigger] c[q1]].key@ != nodes[#[trigger] c[q2]].key@,
    ensures
        kv_map(nodes, c.remove(p)) == kv_map(nodes, c).remove(nodes[c[p]].key@),
    decreases c.len(),
{
    let kp = nodes[c[p]].key@;
    if p == c.len() - 1 {
        assert(c.remove(p) =~= c.drop_last());
        assert forall|q: int| 0 <= q < c.drop_last().len() implies nodes[#[trigger] c.drop_last()[q]].key@
            != kp by {
            assert(c.drop_last()[q] == c[q]);
        }
        lemma_kv_map_absent(nodes, c.drop_last(), kp);
        assert(kv_map(nodes, c.drop_last()).insert(kp, nodes[c[p]].val@).remove(kp) =~= kv_map(
            nodes,
            c.drop_last(),
        ));
    } else {
        lemma_kv_map_remove(nodes, c.drop_last(), p);
        assert(c.remove(p).last() == c.last());
        assert(c.remove(p).drop_last() =~= c.drop_last().remove(p));
        let kl = nodes[c.last()].key@;
        let vl = nodes[c.last()].val@;
        assert(kl != kp);
        let m = kv_map(nodes, c.drop_last());
        assert(m.remove(kp).insert(kl, vl) =~= m.insert(kl, vl).remove(kp));
    }
}


/// Sorted chains have pairwise distinct members and keys.
proof fn lemma_chain_distinct(nodes: Seq<SkipNode>, c: Seq<int>)
    requires
        chain_sorted(nodes, c),
        forall|p: int| 0 <= p < c.len() ==> 0 <= #[trigger] c[p] < nodes.len(),
    ensures
        forall|p: int, q: int|
            0 <= p < q < c.len() ==> nodes[#[trigger] c[p]].key@ != nodes[#[trigger] c[q]].key@,
        forall|p: int, q: int| 0 <= p < q < c.len() ==> #[trigger] c[p] != #[trigger] c[q],
{
    assert forall|p: int, q: int| 0 <= p < q < c.len() implies nodes[#[trigger] c[p]].key@
        != nodes[#[trigger] c[q]].key@ && c[p] != c[q] by {
        lemma_lex_total(nodes[c[p]].key@, nodes[c[q]].key@);
    }
}

/// Membership in a chain after inserting one element.
proof fn lemma_insert_contains(c: Seq<int>, p: int, x: int)
    requires
        0 <= p <= c.len(),
    ensures
        forall|y: int| #[trigger] c.insert(p, x).contains(y) <==> (y == x || c.contains(y)),
{
    c.insert_ensures(p, x);
    let c2 = c.insert(p, x);
    assert forall|y: int| #[trigger] c2.contains(y) <==> (y == x || c.contains(y)) by {
        if c2.contains(y) {
            let q = choose|q: int| 0 <= q < c2.len() && c2[q] == y;
            if q < p {
                assert(c[q] == y);
            } else if q == p {
            } else {
                assert(c[q - 1] == y);
            }
        }
        if y == x {
            assert(c2[p] == y);
        }
        if c.contains(y) {
            let q = choose|q: int| 0 <= q < c.len() && c[q] == y;
            if q < p {
                assert(c2[q] == y);
            } else {
                assert(c2[q + 1] == y);
            }
        }
    }
}

/// Membership in a chain after removing one element of a duplicate-free
/// chain.
proof fn lemma_remove_contains(c: Seq<int>, p: int)
    requires
        0 <= p < c.len(),
        forall|q1: int, q2: int| 0 <= q1 < q2 < c.len() ==> #[trigger] c[q1] != #[trigger] c[q2],
    ensures
        forall|y: int| #[trigger] c.remove(p).contains(y) <==> (y != c[p] && c.contains(y)),
{
    c.remove_ensures(p);
    let c2 = c.remove(p);
    assert forall|y: int| #[trigger] c2.contains(y) <==> (y != c[p] && c.contains(y)) by {
        if c2.contains(y) {
            let q = choose|q: int| 0 <= q < c2.len() && c2[q] == y;
            if q < p {
                assert(c[q] == y);
            } else {
                assert(c[q + 1] == y);
            }
        }
        if y != c[p] && c.contains(y) {
            let q = choose|q: int| 0 <= q < c.len() && c[q] == y;
            if q < p {
                assert(c2[q] == y);
            } else {
                assert(q != p);
                assert(c2[q - 1] == y);
            }
        }
    }
}


/// `idx` is the rightmost chain node whose key is strictly below `key` (the
/// head when `p == -1`), sitting at chain position `p`.
spec fn prev_ok_at(nodes: Seq<SkipNode>, c: Seq<int>, idx: int, p: int, key: Seq<u8>) -> bool {
    &&& -1 <= p < c.len()
    &&& (p == -1 ==> idx == 0)
    &&& (p >= 0 ==> c[p] == idx && lex_lt(nodes[idx].key@, key))
    &&& (p + 1 < c.len() ==> !lex_lt(nodes[c[p + 1]].key@, key))
    &&& 0 <= idx < nodes.len()
}


/// After splicing a fresh node below its chosen height, every structural
/// invariant holds again and the map gains exactly the new pair.
#[verifier::rlimit(100)]
proof fn lemma_splice_wf(
    nodes0: Seq<SkipNode>,
    chains0: Seq<Seq<int>>,
    ml: int,
    nodes_f: Seq<SkipNode>,
    chains_f: Seq<Seq<int>>,
    prevs: Seq<usize>,
    poss: Seq<int>,
    lv: int,
    nidx: int,
    kk: Seq<u8>,
    vv: Seq<u8>,
)
    requires
        ml >= 1,
        nodes0.len() >= 1,
        nodes0[0].next@.len() == ml,
        chains0.len() == ml,
        forall|l: int| 0 <= l < ml ==> chain_links_ok(nodes0, #[trigger] chains0[l], l),
        forall|l: int| 0 <= l < ml ==> chain_sorted(nodes0, #[trigger] chains0[l]),
        forall|l: int, i: int|
            0 <= l < ml ==> (#[trigger] chains0[l].contains(i) <==> chains0[0].contains(i) && l
                < nodes0[i].next@.len()),
        forall|i: int| #[trigger] chains0[0].contains(i) ==> nodes0[i].next@.len() <= ml,
        prevs.len() == ml,
        poss.len() == ml,
        forall|j: int|
            0 <= j < ml ==> prev_ok_at(nodes0, chains0[j], #[trigger] prevs[j] as int, poss[j], kk),
        forall|q: int|
            0 <= q < chains0[0].len() ==> nodes0[#[trigger] chains0[0][q]].key@ != kk,
        1 <= lv <= ml,
        nidx == nodes0.len(),
        nodes_f.len() == nodes0.len() + 1,
        nodes_f[nidx as int].key@ == kk,
        nodes_f[nidx as int].val@ == vv,
        nodes_f[nidx as int].next@.len() == lv,
        forall|j: int|
            0 <= j < lv ==> #[trigger] nodes_f[nidx as int].next@[j] as int == (if poss[j] + 1
                < chains0[j].len() {
                chains0[j][poss[j] + 1]
            } else {
                0int
            }),
        forall|i: int|
            0 <= i < nodes0.len() ==> (#[trigger] nodes_f[i]).key@ == nodes0[i].key@
                && nodes_f[i].val@ == nodes0[i].val@ && nodes_f[i].next@.len()
                == nodes0[i].next@.len(),
        forall|i: int, j: int|
            0 <= i < nodes0.len() && 0 <= j < nodes0[i].next@.len() && !(j < lv && i == prevs[j] as int)
                ==> #[trigger] nodes_f[i].next@[j] == nodes0[i].next@[j],
        forall|j: int|
            0 <= j < lv ==> #[trigger] nodes_f[prevs[j] as int].next@[j] as int == nidx,
        chains_f.len() == ml,
        forall|j: int|
            0 <= j < ml ==> #[trigger] chains_f[j] == (if j < lv {
                chains0[j].insert(poss[j] + 1, nidx as int)
            } else {
                chains0[j]
            }),
    ensures
        forall|l: int| 0 <= l < ml ==> chain_links_ok(nodes_f, #[trigger] chains_f[l], l),
        forall|l: int| 0 <= l < ml ==> chain_sorted(nodes_f, #[trigger] chains_f[l]),
        forall|l: int, i: int|
            0 <= l < ml ==> (#[trigger] chains_f[l].contains(i) <==> chains_f[0].contains(i) && l
                < nodes_f[i].next@.len()),
        forall|i: int| #[trigger] chains_f[0].contains(i) ==> nodes_f[i].next@.len() <= ml,
        kv_map(nodes_f, chains_f[0]) == kv_map(nodes0, chains0[0]).insert(kk, vv),
{
    // keys of every chain node differ from the new key
    assert forall|l: int, q: int|
        0 <= l < ml && 0 <= q < chains0[l].len() implies nodes0[#[trigger] chains0[l][q]].key@
        != kk by {
        let i = chains0[l][q];
        assert(chains0[l].contains(i));
        assert(chains0[0].contains(i));
        let qq = choose|qq: int| 0 <= qq < chains0[0].len() && chains0[0][qq] == i;
        assert(nodes0[chains0[0][qq]].key@ != kk);
    }
    // links are correct at every level
    assert forall|l: int| 0 <= l < ml implies chain_links_ok(nodes_f, #[trigger] chains_f[l], l)
        && chain_sorted(nodes_f, chains_f[l]) by {
        let c = chains0[l];
        lemma_chain_distinct(nodes0, c);
        if l < lv {
            let pp = poss[l];
            let c2 = chains_f[l];
            let pv = prevs[l] as int;
            c.insert_ensures(pp + 1, nidx as int);
            assert(prev_ok_at(nodes0, c, pv, pp, kk));
            assert forall|p: int| 0 <= p < c2.len() implies 1 <= #[trigger] c2[p] < nodes_f.len()
                && l < nodes_f[c2[p]].next@.len() by {
                if p < pp + 1 {
                    assert(c2[p] == c[p]);
                } else if p == pp + 1 {
                    assert(c2[p] == nidx);
                } else {
                    assert(c2[p] == c[p - 1]);
                }
            }
            // head link
            if pp == -1 {
                assert(pv == 0);
                assert(nodes_f[0].next@[l] as int == nidx);
                assert(c2[0] == nidx);
            } else {
                assert(c[pp] == pv && pv >= 1);
                assert(nodes_f[0].next@[l] == nodes0[0].next@[l]);
                assert(c2[0] == c[0]);
            }
            // successor links
            assert forall|p: int| 0 <= p < c2.len() implies (#[trigger] nodes_f[c2[p]].next)@[l] as int
                == (if p + 1 < c2.len() {
                c2[p + 1]
            } else {
                0int
            }) by {
                if p < pp {
                    assert(c2[p] == c[p] && c2[p + 1] == c[p + 1]);
                    assert(c[p] != pv);
                    assert(nodes_f[c[p]].next@[l] == nodes0[c[p]].next@[l]);
                } else if p == pp {
                    assert(c2[p] == pv);
                    assert(nodes_f[pv].next@[l] as int == nidx);
                    assert(c2[p + 1] == nidx);
                } else if p == pp + 1 {
                    assert(c2[p] == nidx);
                    if p + 1 < c2.len() {
                        assert(c2[p + 1] == c[pp + 1]);
                    }
                } else {
                    assert(c2[p] == c[p - 1] && p - 1 > pp >= -1);
                    assert(c[p - 1] != pv);
                    assert(nodes_f[c[p - 1]].next@[l] == nodes0[c[p - 1]].next@[l]);
                    if p + 1 < c2.len() {
                        assert(c2[p + 1] == c[p]);
                    }
                }
            }
            // sortedness around the spliced position
            assert forall|p: int, q: int| 0 <= p < q < c2.len() implies lex_lt(
                nodes_f[#[trigger] c2[p]].key@,
                nodes_f[#[trigger] c2[q]].key@,
            ) by {
                if p != pp + 1 && q != pp + 1 {
                    let p1 = if p < pp + 1 { p } else { p - 1 };
                    let q1 = if q < pp + 1 { q } else { q - 1 };
                    assert(c2[p] == c[p1] && c2[q] == c[q1]);
                    assert(lex_lt(nodes0[c[p1]].key@, nodes0[c[q1]].key@));
                } else if q == pp + 1 {
                    // p <= pp: key below kk
                    assert(c2[p] == c[p]);
                    if p < pp {
                        assert(lex_lt(nodes0[c[p]].key@, nodes0[c[pp]].key@));
                        lemma_lex_trans(nodes0[c[p]].key@, nodes0[c[pp]].key@, kk);
                    }
                } else {
                    // p == pp + 1 < q: key above kk
                    let q1 = q - 1;
                    assert(c2[q] == c[q1] && q1 >= pp + 1);
                    lemma_lex_total(kk, nodes0[c[pp + 1]].key@);
                    assert(lex_lt(kk, nodes0[c[pp + 1]].key@));
                    if q1 > pp + 1 {
                        assert(lex_lt(nodes0[c[pp + 1]].key@, nodes0[c[q1]].key@));
                        lemma_lex_trans(kk, nodes0[c[pp + 1]].key@, nodes0[c[q1]].key@);
                    }
                }
            }
        } else {
            // untouched level
            assert forall|p: int| 0 <= p < c.len() implies (#[trigger] nodes_f[c[p]].next)@[l]
                == nodes0[c[p]].next@[l] by {
                if l < lv && c[p] == prevs[l] as int {
                    assert(false);
                }
            }
            assert(nodes_f[0].next@[l] == nodes0[0].next@[l]);
            assert forall|p: int, q: int| 0 <= p < q < c.len() implies lex_lt(
                nodes_f[#[trigger] c[p]].key@,
                nodes_f[#[trigger] c[q]].key@,
            ) by {
                assert(lex_lt(nodes0[c[p]].key@, nodes0[c[q]].key@));
            }
        }
    }
    assert(prev_ok_at(nodes0, chains0[0], prevs[0] as int, poss[0], kk));
    // membership is coherent across levels
    assert forall|l: int, i: int| 0 <= l < ml implies (#[trigger] chains_f[l].contains(i)
        <==> chains_f[0].contains(i) && l < nodes_f[i].next@.len()) by {
        lemma_insert_contains(chains0[0], poss[0] + 1, nidx as int);
        if l < lv {
            assert(prev_ok_at(nodes0, chains0[l], prevs[l] as int, poss[l], kk));
            lemma_insert_contains(chains0[l], poss[l] + 1, nidx as int);
        }
        assert(chain_links_ok(nodes0, chains0[l], l));
        assert(chain_links_ok(nodes0, chains0[0], 0));
        if chains0[l].contains(i) {
            let q = choose|q: int| 0 <= q < chains0[l].len() && chains0[l][q] == i;
            assert(chains0[l][q] == i && 1 <= chains0[l][q] < nodes0.len());
        }
        if chains0[0].contains(i) {
            let q = choose|q: int| 0 <= q < chains0[0].len() && chains0[0][q] == i;
            assert(chains0[0][q] == i && 1 <= chains0[0][q] < nodes0.len());
        }
        if i == nidx {
            assert(!chains0[l].contains(i));
            assert(!chains0[0].contains(i));
            assert(chains_f[0].contains(i));
        } else if 0 <= i < nodes0.len() {
            assert(chains_f[l].contains(i) <==> chains0[l].contains(i));
            assert(chains_f[0].contains(i) <==> chains0[0].contains(i));
            assert(nodes_f[i].next@.len() == nodes0[i].next@.len());
        } else {
            assert(!chains0[l].contains(i) && !chains0[0].contains(i));
            assert(!chains_f[l].contains(i) && !chains_f[0].contains(i));
        }
    }
    // heights stay within the level budget
    assert forall|i: int| #[trigger] chains_f[0].contains(i) implies nodes_f[i].next@.len()
        <= ml by {
        lemma_insert_contains(chains0[0], poss[0] + 1, nidx as int);
        if i != nidx {
            assert(chains0[0].contains(i));
            assert(chain_links_ok(nodes0, chains0[0], 0));
            let q = choose|q: int| 0 <= q < chains0[0].len() && chains0[0][q] == i;
            assert(chains0[0][q] == i && 1 <= chains0[0][q] < nodes0.len());
        }
    }
    // the map gains exactly the new pair
    let c0 = chains0[0];
    assert forall|q: int| 0 <= q < c0.len() implies 0 <= #[trigger] c0[q] < nodes0.len() by {}
    lemma_kv_map_congr(nodes0, nodes_f, c0);
    assert forall|q: int| 0 <= q < c0.len() implies nodes_f[#[trigger] c0[q]].key@
        != nodes_f[nidx as int].key@ by {
        assert(nodes_f[c0[q]].key@ == nodes0[c0[q]].key@);
    }
    lemma_kv_map_insert(nodes_f, c0, poss[0] + 1, nidx as int);
    assert(chains_f[0] == c0.insert(poss[0] + 1, nidx as int));
}


/// After unlinking one node from every level it participates in, every
/// structural invariant holds again and the map loses exactly its key.
#[verifier::rlimit(100)]
proof fn lemma_unsplice_wf(
    nodes0: Seq<SkipNode>,
    chains0: Seq<Seq<int>>,
    ml: int,
    nodes_f: Seq<SkipNode>,
    chains_f: Seq<Seq<int>>,
    prevs: Seq<usize>,
    poss: Seq<int>,
    lv: int,
    tgt: int,
    kk: Seq<u8>,
)
    requires
        ml >= 1,
        nodes0.len() >= 1,
        nodes0[0].next@.len() == ml,
        chains0.len() == ml,
        forall|l: int| 0 <= l < ml ==> chain_links_ok(nodes0, #[trigger] chains0[l], l),
        forall|l: int| 0 <= l < ml ==> chain_sorted(nodes0, #[trigger] chains0[l]),
        forall|l: int, i: int|
            0 <= l < ml ==> (#[trigger] chains0[l].contains(i) <==> chains0[0].contains(i) && l
                < nodes0[i].next@.len()),
        forall|i: int| #[trigger] chains0[0].contains(i) ==> nodes0[i].next@.len() <= ml,
        prevs.len() == ml,
        poss.len() == ml,
        forall|j: int|
            0 <= j < ml ==> prev_ok_at(nodes0, chains0[j], #[trigger] prevs[j] as int, poss[j], kk),
        1 <= tgt < nodes0.len(),
        nodes0[tgt].key@ == kk,
        nodes0[tgt].next@.len() == lv,
        1 <= lv <= ml,
        // the doomed node sits right after each level predecessor
        forall|j: int|
            #![trigger chains0[j]]
            0 <= j < lv ==> poss[j] + 1 < chains0[j].len() && chains0[j][poss[j] + 1] == tgt,
        nodes_f.len() == nodes0.len(),
        forall|i: int|
            0 <= i < nodes0.len() ==> (#[trigger] nodes_f[i]).key@ == nodes0[i].key@
                && nodes_f[i].val@ == nodes0[i].val@ && nodes_f[i].next@.len()
                == nodes0[i].next@.len(),
        forall|i: int, j: int|
            0 <= i < nodes0.len() && 0 <= j < nodes0[i].next@.len() && !(j < lv && i == prevs[j] as int)
                ==> #[trigger] nodes_f[i].next@[j] == nodes0[i].next@[j],
        forall|j: int|
            0 <= j < lv ==> #[trigger] nodes_f[prevs[j] as int].next@[j]
                == nodes0[tgt].next@[j],
        chains_f.len() == ml,
        forall|j: int|
            0 <= j < ml ==> #[trigger] chains_f[j] == (if j < lv {
                chains0[j].remove(poss[j] + 1)
            } else {
                chains0[j]
            }),
    ensures
        forall|l: int| 0 <= l < ml ==> chain_links_ok(nodes_f, #[trigger] chains_f[l], l),
        forall|l: int| 0 <= l < ml ==> chain_sorted(nodes_f, #[trigger] chains_f[l]),
        forall|l: int, i: int|
            0 <= l < ml ==> (#[trigger] chains_f[l].contains(i) <==> chains_f[0].contains(i) && l
                < nodes_f[i].next@.len()),
        forall|i: int| #[trigger] chains_f[0].contains(i) ==> nodes_f[i].next@.len() <= ml,
        kv_map(nodes_f, chains_f[0]) == kv_map(nodes0, chains0[0]).remove(kk),
{
    assert(prev_ok_at(nodes0, chains0[0], prevs[0] as int, poss[0], kk));
    assert(poss[0] + 1 < chains0[0].len() && chains0[0][poss[0] + 1] == tgt);
    // links and order at every level
    assert forall|l: int| 0 <= l < ml implies chain_links_ok(nodes_f, #[trigger] chains_f[l], l)
        && chain_sorted(nodes_f, chains_f[l]) by {
        let c = chains0[l];
        lemma_chain_distinct(nodes0, c);
        if l < lv {
            let pp = poss[l];
            let qq = pp + 1;
            let c2 = chains_f[l];
            let pv = prevs[l] as int;
            assert(poss[l] + 1 < chains0[l].len() && chains0[l][poss[l] + 1] == tgt);
            c.remove_ensures(qq);
            assert(prev_ok_at(nodes0, c, pv, pp, kk));
            assert forall|p: int| 0 <= p < c2.len() implies 1 <= #[trigger] c2[p] < nodes_f.len()
                && l < nodes_f[c2[p]].next@.len() by {
                if p < qq {
                    assert(c2[p] == c[p]);
                } else {
                    assert(c2[p] == c[p + 1]);
                }
            }
            // head link
            if pp == -1 {
                assert(pv == 0);
                assert(nodes_f[0].next@[l] == nodes0[tgt].next@[l]);
                assert(nodes0[tgt].next@[l] as int == (if qq + 1 < c.len() {
                    c[qq + 1]
                } else {
                    0int
                }));
                if c2.len() > 0 {
                    assert(c2[0] == c[1]);
                }
            } else {
                assert(c[pp] == pv && pv >= 1);
                assert(nodes_f[0].next@[l] == nodes0[0].next@[l]);
                assert(c2[0] == c[0]);
            }
            // successor links
            assert forall|p: int| 0 <= p < c2.len() implies (#[trigger] nodes_f[c2[p]].next)@[l] as int
                == (if p + 1 < c2.len() {
                c2[p + 1]
            } else {
                0int
            }) by {
                if p < pp {
                    assert(c2[p] == c[p] && c2[p + 1] == c[p + 1]);
                    assert(c[p] != pv);
                    assert(nodes_f[c[p]].next@[l] == nodes0[c[p]].next@[l]);
                } else if p == pp {
                    assert(c2[p] == pv);
                    assert(nodes_f[pv].next@[l] == nodes0[tgt].next@[l]);
                    assert(nodes0[tgt].next@[l] as int == (if qq + 1 < c.len() {
                        c[qq + 1]
                    } else {
                        0int
                    }));
                    if p + 1 < c2.len() {
                        assert(c2[p + 1] == c[qq + 1]);
                    }
                } else {
                    assert(c2[p] == c[p + 1] && p + 1 != qq);
                    assert(c[p + 1] != pv);
                    assert(nodes_f[c[p + 1]].next@[l] == nodes0[c[p + 1]].next@[l]);
                    if p + 1 < c2.len() {
                        assert(c2[p + 1] == c[p + 2]);
                    }
                }
            }
            // order is kept on a subsequence
            assert forall|p: int, q: int| 0 <= p < q < c2.len() implies lex_lt(
                nodes_f[#[trigger] c2[p]].key@,
                nodes_f[#[trigger] c2[q]].key@,
            ) by {
                let p1 = if p < qq { p } else { p + 1 };
                let q1 = if q < qq { q } else { q + 1 };
                assert(c2[p] == c[p1] && c2[q] == c[q1]);
                assert(lex_lt(nodes0[c[p1]].key@, nodes0[c[q1]].key@));
            }
        } else {
            assert forall|p: int| 0 <= p < c.len() implies (#[trigger] nodes_f[c[p]].next)@[l]
                == nodes0[c[p]].next@[l] by {
                if l < lv && c[p] == prevs[l] as int {
                    assert(false);
                }
            }
            assert(nodes_f[0].next@[l] == nodes0[0].next@[l]);
            assert forall|p: int, q: int| 0 <= p < q < c.len() implies lex_lt(
                nodes_f[#[trigger] c[p]].key@,
                nodes_f[#[trigger] c[q]].key@,
            ) by {
                assert(lex_lt(nodes0[c[p]].key@, nodes0[c[q]].key@));
            }
        }
    }
    // coherent membership
    assert forall|l: int, i: int| 0 <= l < ml implies (#[trigger] chains_f[l].contains(i)
        <==> chains_f[0].contains(i) && l < nodes_f[i].next@.len()) by {
        lemma_chain_distinct(nodes0, chains0[0]);
        lemma_remove_contains(chains0[0], poss[0] + 1);
        if l < lv {
            assert(prev_ok_at(nodes0, chains0[l], prevs[l] as int, poss[l], kk));
            assert(poss[l] + 1 < chains0[l].len() && chains0[l][poss[l] + 1] == tgt);
            lemma_chain_distinct(nodes0, chains0[l]);
            lemma_remove_contains(chains0[l], poss[l] + 1);
        }
        assert(chain_links_ok(nodes0, chains0[l], l));
        assert(chain_links_ok(nodes0, chains0[0], 0));
        if i == tgt {
            assert(!chains_f[0].contains(i));
            if l >= lv {
                assert(!chains0[l].contains(i));
            }
        } else if 0 <= i < nodes0.len() {
            assert(nodes_f[i].next@.len() == nodes0[i].next@.len());
            if l < lv {
                assert(chains_f[l].contains(i) <==> chains0[l].contains(i));
            }
            assert(chains_f[0].contains(i) <==> chains0[0].contains(i));
        } else {
            if chains0[l].contains(i) {
                let q = choose|q: int| 0 <= q < chains0[l].len() && chains0[l][q] == i;
                assert(chains0[l][q] == i && 1 <= chains0[l][q] < nodes0.len());
            }
            if chains0[0].contains(i) {
                let q = choose|q: int| 0 <= q < chains0[0].len() && chains0[0][q] == i;
                assert(chains0[0][q] == i && 1 <= chains0[0][q] < nodes0.len());
            }
            if l < lv {
                assert(!chains_f[l].contains(i));
            }
            assert(!chains_f[0].contains(i));
        }
    }
    // height bound
    assert forall|i: int| #[trigger] chains_f[0].contains(i) implies nodes_f[i].next@.len()
        <= ml by {
        lemma_chain_distinct(nodes0, chains0[0]);
        lemma_remove_contains(chains0[0], poss[0] + 1);
        assert(chains0[0].contains(i));
        assert(chain_links_ok(nodes0, chains0[0], 0));
        let q = choose|q: int| 0 <= q < chains0[0].len() && chains0[0][q] == i;
        assert(chains0[0][q] == i && 1 <= chains0[0][q] < nodes0.len());
    }
    // the map loses exactly kk
    let c0 = chains0[0];
    lemma_chain_distinct(nodes0, c0);
    let c2 = c0.remove(poss[0] + 1);
    c0.remove_ensures(poss[0] + 1);
    assert forall|q: int| 0 <= q < c2.len() implies 0 <= #[trigger] c2[q] < nodes0.len() by {
        if q < poss[0] + 1 {
            assert(c2[q] == c0[q]);
        } else {
            assert(c2[q] == c0[q + 1]);
        }
    }
    assert forall|q: int| 0 <= q < c2.len() implies nodes_f[#[trigger] c2[q]].key@
        == nodes0[c2[q]].key@ && nodes_f[c2[q]].val@ == nodes0[c2[q]].val@ by {}
    lemma_kv_map_congr(nodes0, nodes_f, c2);
    lemma_kv_map_remove(nodes0, c0, poss[0] + 1);
    assert(chains_f[0] == c2);
    assert(nodes0[c0[poss[0] + 1]].key@ == kk);
}

pub struct SkipList {
    max_level: usize,
    nodes: Vec<SkipNode>,
    chains: Ghost<Seq<Seq<int>>>,
}

/// Relies on rand::random::<bool>: draws one boolean from the thread-local
/// generator; nothing is assumed of its value.
#[verifier::external_body]
fn coin_flip() -> bool {
    rand::random::<bool>()
}

impl View for SkipList {
    type V = Map<Seq<u8>, Seq<u8>>;

    closed spec fn view(&self) -> Map<Seq<u8>, Seq<u8>> {
        kv_map(self.nodes@, self.chains@[0])
    }
}

impl SkipList {
    pub closed spec fn spec_max_level(&self) -> usize {
        self.max_level
    }

    /// Structural invariant: the sentinel anchors `max_level` chains, each
    /// chain is correctly linked and strictly sorted, and a node stands in
    /// the chains of exactly the levels below its height.
    pub closed spec fn wf(&self) -> bool {
        &&& self.max_level >= 1
        &&& self.nodes@.len() >= 1
        &&& self.nodes@[0].next@.len() == self.max_level
        &&& self.chains@.len() == self.max_level
        &&& forall|l: int|
            0 <= l < self.max_level ==> chain_links_ok(self.nodes@, #[trigger] self.chains@[l], l)
        &&& forall|l: int|
            0 <= l < self.max_level ==> chain_sorted(self.nodes@, #[trigger] self.chains@[l])
        &&& forall|l: int, i: int|
            0 <= l < self.max_level ==> (#[trigger] self.chains@[l].contains(i)
                <==> self.chains@[0].contains(i) && l < self.nodes@[i].next@.len())
        &&& forall|i: int|
            #[trigger] self.chains@[0].contains(i) ==> self.nodes@[i].next@.len()
                <= self.max_level
    }

    /// A fresh index with `max_level >= 1` levels and no entries.
    pub fn new(max_level: usize) -> (r: SkipList)
        requires
            max_level >= 1,
        ensures
            r.wf(),
            r@ == Map::<Seq<u8>, Seq<u8>>::empty(),
            r.spec_max_level() == max_level,
    {
        let mut next: Vec<usize> = Vec::new();
        while next.len() < max_level
            invariant
                next@.len() <= max_level,
                forall|j: int| 0 <= j < next@.len() ==> next@[j] == 0,
            decreases max_level - next@.len(),
        {
            next.push(0);
        }
        let head = SkipNode { key: Vec::new(), val: Vec::new(), next };
        let mut nodes: Vec<SkipNode> = Vec::new();
        nodes.push(head);
        let r = SkipList {
            max_level,
            nodes,
            chains: Ghost(Seq::new(max_level as nat, |l: int| Seq::<int>::empty())),
        };
        proof {
            assert forall|l: int| 0 <= l < max_level implies chain_links_ok(
                r.nodes@,
                #[trigger] r.chains@[l],
                l,
            ) by {
                assert(r.chains@[l].len() == 0);
            }
        }
        r
    }

    /// Draws a level in `[1, max_level]` by fair coin flips.
    fn random_level(&self) -> (r: usize)
        requires
            self.spec_max_level() >= 1,
        ensures
            1 <= r <= self.spec_max_level(),
    {
        let mut level: usize = 1;
        while level < self.max_level && coin_flip()
            invariant
                1 <= level <= self.max_level,
            decreases self.max_level - level,
        {
            level = level + 1;
        }
        level
    }

    /// Finds, per level, the rightmost node whose key is strictly below
    /// `key` (the head where none is). Returns the node indices and,
    /// as ghost data, their positions in the level chains (-1 for the head).
    fn find_prevs(&self, key: &Vec<u8>) -> (r: (Vec<usize>, Ghost<Seq<int>>))
        requires
            self.wf(),
        ensures
            r.0@.len() == self.spec_max_level(),
            r.1@.len() == self.spec_max_level(),
            forall|l: int|
                0 <= l < self.spec_max_level() ==> self.prev_ok(l, #[trigger] r.0@[l] as int, r.1@[l], key@),
    {
        let ghost ml = self.max_level as int;
        let mut prevs: Vec<usize> = Vec::new();
        let ghost mut poss: Seq<int> = Seq::empty();
        let mut prev: usize = 0;
        let ghost mut p: int = -1;
        let mut l: usize = self.max_level;
        while l > 0
            invariant
                self.wf(),
                l <= self.spec_max_level(),
                prevs@.len() == self.spec_max_level() - l,
                poss.len() == self.spec_max_level() - l,
                forall|j: int|
                    l <= j < self.spec_max_level() ==> self.prev_ok(
                        j,
                        #[trigger] prevs@[self.spec_max_level() - 1 - j] as int,
                        poss[self.spec_max_level() - 1 - j],
                        key@,
                    ),
                prev == 0 ==> p == -1,
                p >= 0 ==> l < self.spec_max_level(),
                prev != 0 ==> 0 <= p < self.chains@[l as int].len() && self.chains@[l as int][p]
                    == prev as int && lex_lt(self.nodes@[prev as int].key@, key@),
                (prev as int) < self.nodes@.len(),
                l < self.spec_max_level() && p + 1 < self.chains@[l as int].len() ==> !lex_lt(
                    self.nodes@[self.chains@[l as int][p + 1]].key@,
                    key@,
                ),
            decreases l,
        {
            let lvl = l - 1;
            proof {
                // carry the walk position down one level
                if prev != 0 {
                    let cu = self.chains@[l as int];
                    let cd = self.chains@[lvl as int];
                    assert(cu.contains(prev as int));
                    assert(cd.contains(prev as int));
                    p = choose|q: int| 0 <= q < cd.len() && cd[q] == prev as int;
                } else {
                    p = -1;
                }
            }
            let ghost c = self.chains@[lvl as int];
            let mut curr: usize = if prev == 0 {
                self.nodes[0].next[lvl]
            } else {
                self.nodes[prev].next[lvl]
            };
            proof {
                if prev == 0 {
                    assert(curr as int == if c.len() == 0 {
                        0int
                    } else {
                        c[0]
                    });
                }
            }
            while curr != 0 && key_lt(&self.nodes[curr].key, key)
                invariant
                    self.wf(),
                    lvl < self.spec_max_level(),
                    c == self.chains@[lvl as int],
                    prev == 0 ==> p == -1,
                    prev != 0 ==> 0 <= p < c.len() && c[p] == prev as int && lex_lt(
                        self.nodes@[prev as int].key@,
                        key@,
                    ),
                    (prev as int) < self.nodes@.len(),
                    curr as int == (if p + 1 < c.len() {
                        c[p + 1]
                    } else {
                        0int
                    }),
                    (curr as int) < self.nodes@.len(),
                decreases c.len() - p,
            {
                prev = curr;
                proof {
                    p = p + 1;
                }
                curr = self.nodes[curr].next[lvl];
            }
            prevs.push(prev);
            proof {
                poss = poss.push(p);
                assert(self.prev_ok(lvl as int, prev as int, p, key@));
            }
            l = lvl;
        }
        proof {
            assert forall|j: int| 0 <= j < ml implies self.prev_ok(
                j,
                #[trigger] prevs@[ml - 1 - j] as int,
                poss[ml - 1 - j],
                key@,
            ) by {}
        }
        // reverse so that index l holds the level-l predecessor
        let mut out: Vec<usize> = Vec::new();
        let ghost mut outp: Seq<int> = Seq::empty();
        let mut i: usize = self.max_level;
        while i > 0
            invariant
                i <= self.spec_max_level(),
                prevs@.len() == self.spec_max_level(),
                poss.len() == self.spec_max_level(),
                out@.len() == self.spec_max_level() - i,
                outp.len() == self.spec_max_level() - i,
                forall|j: int|
                    0 <= j < self.spec_max_level() - i ==> out@[j] == prevs@[
                        self.spec_max_level() - 1 - j
                    ],
                forall|j: int|
                    0 <= j < self.spec_max_level() - i ==> outp[j] == poss[
                        self.spec_max_level() - 1 - j
                    ],
            decreases i,
        {
            i = i - 1;
            let ghost out0 = out@;
            let ghost outp0 = outp;
            out.push(prevs[i]);
            proof {
                outp = outp.push(poss[i as int]);
                assert forall|j: int|
                    0 <= j < self.spec_max_level() - i implies out@[j] == prevs@[
                    self.spec_max_level() - 1 - j
                ] && outp[j] == poss[self.spec_max_level() - 1 - j] by {
                    if j < self.spec_max_level() - i - 1 {
                        assert(out@[j] == out0[j]);
                        assert(outp[j] == outp0[j]);
                    } else {
                        assert(j == self.spec_max_level() - i - 1);
                        assert(out@[j] == prevs@[i as int]);
                        assert(outp[j] == poss[i as int]);
                    }
                }
            }
        }
        proof {
            assert forall|l2: int| 0 <= l2 < ml implies self.prev_ok(
                l2,
                #[trigger] out@[l2] as int,
                outp[l2],
                key@,
            ) by {
                assert(out@[l2] == prevs@[ml - 1 - l2]);
                assert(outp[l2] == poss[ml - 1 - l2]);
            }
        }
        (out, Ghost(outp))
    }

    /// What `find_prevs` guarantees at level `l`: `idx` is the chain node at
    /// position `p` (the head for `p == -1`), its key is below `key`, and
    /// the next chain node's key is not.
    spec fn prev_ok(&self, l: int, idx: int, p: int, key: Seq<u8>) -> bool {
        prev_ok_at(self.nodes@, self.chains@[l], idx, p, key)
    }

    /// No chain node carries `key` when the level-0 successor of the found
    /// predecessor does not.
    proof fn lemma_absent(&self, p: int, key: Seq<u8>)
        requires
            self.wf(),
            -1 <= p < self.chains@[0].len(),
            p >= 0 ==> lex_lt(self.nodes@[self.chains@[0][p]].key@, key),
            p + 1 < self.chains@[0].len() ==> lex_lt(key, self.nodes@[self.chains@[0][p + 1]].key@),
        ensures
            !self@.contains_key(key),
    {
        let c = self.chains@[0];
        let nodes = self.nodes@;
        assert forall|q: int| 0 <= q < c.len() implies nodes[#[trigger] c[q]].key@ != key by {
            if q <= p {
                if q < p {
                    assert(lex_lt(nodes[c[q]].key@, nodes[c[p]].key@));
                    lemma_lex_trans(nodes[c[q]].key@, nodes[c[p]].key@, key);
                }
                lemma_lex_total(nodes[c[q]].key@, key);
            } else {
                if q > p + 1 {
                    assert(lex_lt(nodes[c[p + 1]].key@, nodes[c[q]].key@));
                    lemma_lex_trans(key, nodes[c[p + 1]].key@, nodes[c[q]].key@);
                }
                lemma_lex_total(key, nodes[c[q]].key@);
            }
        }
        lemma_kv_map_absent(nodes, c, key);
    }

    /// Point lookup: the value most recently inserted for `key`, or nothing.
    pub fn get(&self, key: &Vec<u8>) -> (r: Option<&Vec<u8>>)
        requires
            self.wf(),
        ensures
            match r {
                Some(v) => self@.contains_key(key@) && v@ == self@[key@],
                None => !self@.contains_key(key@),
            },
    {
        let (prevs, poss) = self.find_prevs(key);
        let prev = prevs[0];
        let ghost p = poss@[0];
        let ghost c = self.chains@[0];
        let succ = self.nodes[prev].next[0];
        proof {
            assert(self.prev_ok(0, prev as int, p, key@));
            if prev == 0 {
                assert(succ as int == if c.len() == 0 {
                    0int
                } else {
                    c[0]
                });
            } else {
                assert(succ as int == if p + 1 < c.len() {
                    c[p + 1]
                } else {
                    0int
                });
            }
        }
        if succ != 0 && key_eq(&self.nodes[succ].key, key) {
            proof {
                let nodes = self.nodes@;
                assert(succ as int == c[p + 1]);
                assert forall|q: int| p + 1 < q < c.len() implies nodes[#[trigger] c[q]].key@
                    != nodes[c[p + 1]].key@ by {
                    assert(lex_lt(nodes[c[p + 1]].key@, nodes[c[q]].key@));
                    lemma_lex_total(nodes[c[p + 1]].key@, nodes[c[q]].key@);
                }
                lemma_kv_map_get(nodes, c, p + 1);
                lemma_kv_map_has(nodes, c, p + 1);
            }
            Some(&self.nodes[succ].val)
        } else {
            proof {
                if succ != 0 {
                    lemma_lex_total(key@, self.nodes@[succ as int].key@);
                }
                self.lemma_absent(p, key@);
            }
            None
        }
    }



    /// Insert-or-update: overwrites the value in place when the key already
    /// exists (no new node, no level change), otherwise splices a new node
    /// into every level up to a freshly chosen random height.
    #[verifier::loop_isolation(false)]
    #[verifier::rlimit(100)]
    pub fn insert(&mut self, key: Vec<u8>, val: Vec<u8>)
        requires
            old(self).wf(),
        ensures
            final(self).wf(),
            final(self)@ == old(self)@.insert(key@, val@),
            final(self).spec_max_level() == old(self).spec_max_level(),
    {
        let ghost ml = self.max_level as int;
        let ghost nodes0 = self.nodes@;
        let ghost chains0 = self.chains@;
        let ghost c0 = self.chains@[0];
        let ghost kk0 = key@;
        let ghost vv0 = val@;
        let (prevs, poss_g) = self.find_prevs(&key);
        let ghost poss = poss_g@;
        let prev0 = prevs[0];
        let ghost p0 = poss[0];
        let succ = self.nodes[prev0].next[0];
        proof {
            assert forall|j: int| 0 <= j < ml implies prev_ok_at(
                nodes0,
                chains0[j],
                #[trigger] prevs@[j] as int,
                poss[j],
                key@,
            ) by {
                assert(self.prev_ok(j, prevs@[j] as int, poss[j], key@));
            }
            assert(self.prev_ok(0, prev0 as int, p0, key@));
            if prev0 == 0 {
                assert(succ as int == (if c0.len() == 0 {
                    0int
                } else {
                    c0[0]
                }));
            } else {
                assert(succ as int == (if p0 + 1 < c0.len() {
                    c0[p0 + 1]
                } else {
                    0int
                }));
            }
            lemma_chain_distinct(nodes0, c0);
        }
        if succ != 0 && key_eq(&self.nodes[succ].key, &key) {
            self.nodes[succ].val = val;
            proof {
                let nodes2 = self.nodes@;
                assert(succ as int == c0[p0 + 1]);
                assert(nodes2[succ as int].key@ == kk0);
                assert(nodes2[succ as int].val@ == vv0);
                assert forall|i: int| 0 <= i < nodes0.len() && i != succ implies nodes2[i]
                    == nodes0[i] by {}
                assert(nodes2[succ as int].next@ == nodes0[succ as int].next@);
                assert forall|l: int| 0 <= l < ml implies chain_links_ok(
                    nodes2,
                    #[trigger] self.chains@[l],
                    l,
                ) && chain_sorted(nodes2, self.chains@[l]) by {
                    let c = self.chains@[l];
                    assert(chain_links_ok(nodes0, c, l));
                    assert forall|pp: int| 0 <= pp < c.len() implies (#[trigger] nodes2[c[pp]].next)@
                        == nodes0[c[pp]].next@ && nodes2[c[pp]].key@ == nodes0[c[pp]].key@ by {}
                }
                assert forall|l: int, i: int| 0 <= l < ml implies (
                    #[trigger] self.chains@[l].contains(i) <==> self.chains@[0].contains(i) && l
                        < nodes2[i].next@.len()) by {
                    if 0 <= i < nodes0.len() {
                        assert(nodes2[i].next@.len() == nodes0[i].next@.len());
                    } else {
                        assert(chain_links_ok(nodes0, chains0[l], l));
                        assert(chain_links_ok(nodes0, chains0[0], 0));
                        if self.chains@[l].contains(i) {
                            let q = choose|q: int| 0 <= q < self.chains@[l].len()
                                && self.chains@[l][q] == i;
                            assert(chains0[l][q] == i && 1 <= chains0[l][q] < nodes0.len());
                        }
                        if self.chains@[0].contains(i) {
                            let q = choose|q: int| 0 <= q < self.chains@[0].len()
                                && self.chains@[0][q] == i;
                            assert(chains0[0][q] == i && 1 <= chains0[0][q] < nodes0.len());
                        }
                    }
                }
                assert forall|q: int|
                    0 <= q < c0.len() && q != p0 + 1 implies nodes0[#[trigger] c0[q]].key@
                    != nodes0[c0[p0 + 1]].key@ by {
                    if q < p0 + 1 {
                        assert(lex_lt(nodes0[c0[q]].key@, nodes0[c0[p0 + 1]].key@));
                        lemma_lex_total(nodes0[c0[q]].key@, nodes0[c0[p0 + 1]].key@);
                    } else {
                        assert(lex_lt(nodes0[c0[p0 + 1]].key@, nodes0[c0[q]].key@));
                        lemma_lex_total(nodes0[c0[p0 + 1]].key@, nodes0[c0[q]].key@);
                    }
                }
                lemma_kv_map_update(nodes0, nodes2, c0, p0 + 1);
                assert(self@ == old(self)@.insert(kk0, vv0));
            }
        } else {
            proof {
                if succ != 0 {
                    lemma_lex_total(key@, self.nodes@[succ as int].key@);
                }
                self.lemma_no_key(p0, key@);
            }
            let lv = self.random_level();
            let nidx = self.nodes.len();
            let mut nexts: Vec<usize> = Vec::new();
            let mut li: usize = 0;
            while li < lv
                invariant
                    li <= lv,
                    nexts@.len() == li,
                    forall|j: int|
                        0 <= j < li ==> (#[trigger] nexts@[j]) as int == (if poss[j] + 1
                            < chains0[j].len() {
                            chains0[j][poss[j] + 1]
                        } else {
                            0int
                        }),
                decreases lv - li,
            {
                proof {
                    assert(self.prev_ok(li as int, prevs@[li as int] as int, poss[li as int], key@));
                }
                let pj = prevs[li];
                nexts.push(self.nodes[pj].next[li]);
                li = li + 1;
            }
            let ghost nexts_snap = nexts@;
            let node = SkipNode { key, val, next: nexts };
            self.nodes.push(node);
            let ghost ext = self.nodes@;
            proof {
                assert(ext =~= nodes0.push(ext[nidx as int]));
                assert(ext[nidx as int].key@ == key@);
                assert(ext[nidx as int].val@ == val@);
                assert(ext[nidx as int].next@.len() == lv);
            }
            let mut li2: usize = 0;
            while li2 < lv
                invariant
                    li2 <= lv,
                    self.max_level == old(self).max_level,
                    self.nodes@.len() == nodes0.len() + 1,
                    self.chains@ == chains0,
                    forall|i: int|
                        0 <= i < ext.len() ==> (#[trigger] self.nodes@[i]).key@ == ext[i].key@
                            && self.nodes@[i].val@ == ext[i].val@ && self.nodes@[i].next@.len()
                            == ext[i].next@.len(),
                    forall|i: int, j: int|
                        0 <= i < ext.len() && 0 <= j < ext[i].next@.len() && !(j < li2 && i
                            == prevs@[j] as int) ==> (#[trigger] self.nodes@[i].next@[j])
                            == ext[i].next@[j],
                    forall|j: int|
                        0 <= j < li2 ==> (#[trigger] self.nodes@[prevs@[j] as int].next@[j]) as int
                            == nodes0.len() as int,
                decreases lv - li2,
            {
                proof {
                    assert(self.prev_ok(li2 as int, prevs@[li2 as int] as int, poss[li2 as int], key@));
                    let pj = prevs@[li2 as int] as int;
                    if poss[li2 as int] >= 0 {
                        assert(chain_links_ok(nodes0, chains0[li2 as int], li2 as int));
                        assert(li2 < nodes0[pj].next@.len());
                    } else {
                        assert(pj == 0);
                        assert(nodes0[0].next@.len() == ml);
                    }
                }
                let pj = prevs[li2];
                self.nodes[pj].next[li2] = nidx;
                li2 = li2 + 1;
            }
            let ghost nodes_f = self.nodes@;
            proof {
                let newchains = Seq::new(
                    ml as nat,
                    |j: int|
                        if j < lv {
                            chains0[j].insert(poss[j] + 1, nidx as int)
                        } else {
                            chains0[j]
                        },
                );
                self.chains@ = newchains;
                let kk = kk0;
                assert forall|i: int|
                    0 <= i < nodes0.len() implies (#[trigger] nodes_f[i]).key@ == nodes0[i].key@
                        && nodes_f[i].val@ == nodes0[i].val@ && nodes_f[i].next@.len()
                        == nodes0[i].next@.len() by {
                    assert(ext[i].key@ == nodes0[i].key@);
                }
                assert forall|i: int, j: int|
                    0 <= i < nodes0.len() && 0 <= j < nodes0[i].next@.len() && !(j < lv && i
                        == prevs@[j] as int) implies #[trigger] nodes_f[i].next@[j]
                    == nodes0[i].next@[j] by {
                    assert(ext[i].next@[j] == nodes0[i].next@[j]);
                }
                assert forall|j: int| 0 <= j < lv implies (#[trigger] nodes_f[nidx as int].next@[j]) as int
                    == (if poss[j] + 1 < chains0[j].len() {
                    chains0[j][poss[j] + 1]
                } else {
                    0int
                }) by {
                    assert(prev_ok_at(nodes0, chains0[j], prevs@[j] as int, poss[j], kk0));
                    assert((prevs@[j] as int) < nidx as int);
                    assert(nodes_f[nidx as int].next@[j] == ext[nidx as int].next@[j]);
                    assert(ext[nidx as int].next@[j] == nexts_snap[j]);
                    assert((nexts_snap[j]) as int == (if poss[j] + 1 < chains0[j].len() {
                        chains0[j][poss[j] + 1]
                    } else {
                        0int
                    }));
                }
                assert forall|j: int| 0 <= j < ml implies #[trigger] newchains[j] == (if j
                    < lv as int {
                    chains0[j].insert(poss[j] + 1, nidx as int)
                } else {
                    chains0[j]
                }) by {}
                lemma_splice_wf(
                    nodes0,
                    chains0,
                    ml,
                    nodes_f,
                    newchains,
                    prevs@,
                    poss,
                    lv as int,
                    nidx as int,
                    kk,
                    vv0,
                );
                assert(self.chains@ == newchains);
                assert(self.nodes@ == nodes_f);
                assert(nodes_f[0].next@.len() == nodes0[0].next@.len());
                assert(self.max_level >= 1);
                assert(self.nodes@.len() >= 1);
                assert(self.nodes@[0].next@.len() == self.max_level);
                assert(self.chains@.len() == self.max_level);
                assert(forall|l: int|
                    0 <= l < self.max_level ==> chain_links_ok(
                        self.nodes@,
                        #[trigger] self.chains@[l],
                        l,
                    ));
                assert(forall|l: int|
                    0 <= l < self.max_level ==> chain_sorted(self.nodes@, #[trigger] self.chains@[l]));
                assert(forall|l: int, i: int|
                    0 <= l < self.max_level ==> (#[trigger] self.chains@[l].contains(i)
                        <==> self.chains@[0].contains(i) && l < self.nodes@[i].next@.len()));
                assert(forall|i: int|
                    #[trigger] self.chains@[0].contains(i) ==> self.nodes@[i].next@.len()
                        <= self.max_level);
                assert(self.wf());
                assert(self@ == old(self)@.insert(kk0, vv0));
            }
        }
    }


    /// Removes `key` if present, unlinking its node from every level the
    /// node participates in; absent keys are a no-op.
    #[verifier::loop_isolation(false)]
    #[verifier::rlimit(100)]
    pub fn delete(&mut self, key: &Vec<u8>)
        requires
            old(self).wf(),
        ensures
            final(self).wf(),
            final(self)@ == old(self)@.remove(key@),
            final(self).spec_max_level() == old(self).spec_max_level(),
    {
        let ghost ml = self.max_level as int;
        let ghost nodes0 = self.nodes@;
        let ghost chains0 = self.chains@;
        let ghost c0 = self.chains@[0];
        let (prevs, poss_g) = self.find_prevs(key);
        let ghost poss = poss_g@;
        let prev0 = prevs[0];
        let ghost p0 = poss[0];
        let succ = self.nodes[prev0].next[0];
        proof {
            assert forall|j: int| 0 <= j < ml implies prev_ok_at(
                nodes0,
                chains0[j],
                #[trigger] prevs@[j] as int,
                poss[j],
                key@,
            ) by {
                assert(self.prev_ok(j, prevs@[j] as int, poss[j], key@));
            }
            assert(self.prev_ok(0, prev0 as int, p0, key@));
            if prev0 == 0 {
                assert(succ as int == (if c0.len() == 0 {
                    0int
                } else {
                    c0[0]
                }));
            } else {
                assert(succ as int == (if p0 + 1 < c0.len() {
                    c0[p0 + 1]
                } else {
                    0int
                }));
            }
            lemma_chain_distinct(nodes0, c0);
        }
        if succ == 0 || !key_eq(&self.nodes[succ].key, key) {
            proof {
                if succ != 0 {
                    lemma_lex_total(key@, self.nodes@[succ as int].key@);
                }
                self.lemma_absent(p0, key@);
                assert(self@.remove(key@) =~= self@);
            }
            return;
        }
        let ghost tgt = succ as int;
        let lv = self.nodes[succ].next.len();
        proof {
            assert(c0[p0 + 1] == tgt);
            assert(c0.contains(tgt));
            assert(nodes0[tgt].next@.len() <= ml);
            assert(lv >= 1);
            // at each level below lv, the doomed node sits right after the
            // level predecessor
            assert forall|j: int|
                #![trigger chains0[j]]
                0 <= j < lv implies poss[j] + 1 < chains0[j].len() && chains0[j][poss[j] + 1]
                == tgt by {
                let c = chains0[j];
                assert(chains0[j].contains(tgt));
                let q = choose|q: int| 0 <= q < c.len() && c[q] == tgt;
                assert(prev_ok_at(nodes0, c, prevs@[j] as int, poss[j], key@));
                lemma_chain_distinct(nodes0, c);
                let pp = poss[j];
                if q <= pp {
                    assert(lex_lt(nodes0[c[pp]].key@, key@));
                    if q < pp {
                        assert(lex_lt(nodes0[c[q]].key@, nodes0[c[pp]].key@));
                        lemma_lex_total(nodes0[c[q]].key@, nodes0[c[pp]].key@);
                    }
                    lemma_lex_total(nodes0[c[pp]].key@, key@);
                    assert(false);
                }
                if q > pp + 1 {
                    assert(lex_lt(nodes0[c[pp + 1]].key@, nodes0[c[q]].key@));
                    assert(!lex_lt(nodes0[c[pp + 1]].key@, key@));
                    assert(false);
                }
            }
        }
        let mut li: usize = 0;
        while li < lv
            invariant
                li <= lv,
                lv == nodes0[tgt].next@.len(),
                self.max_level == old(self).max_level,
                self.nodes@.len() == nodes0.len(),
                self.chains@ == chains0,
                forall|i: int|
                    0 <= i < nodes0.len() ==> (#[trigger] self.nodes@[i]).key@ == nodes0[i].key@
                        && self.nodes@[i].val@ == nodes0[i].val@ && self.nodes@[i].next@.len()
                        == nodes0[i].next@.len(),
                forall|i: int, j: int|
                    0 <= i < nodes0.len() && 0 <= j < nodes0[i].next@.len() && !(j < li && i
                        == prevs@[j] as int) ==> (#[trigger] self.nodes@[i].next@[j])
                        == nodes0[i].next@[j],
                forall|j: int|
                    0 <= j < li ==> (#[trigger] self.nodes@[prevs@[j] as int].next@[j])
                        == nodes0[tgt].next@[j],
            decreases lv - li,
        {
            proof {
                assert(prev_ok_at(nodes0, chains0[li as int], prevs@[li as int] as int, poss[li as int], key@));
                let pj = prevs@[li as int] as int;
                if poss[li as int] >= 0 {
                    assert(chain_links_ok(nodes0, chains0[li as int], li as int));
                    assert((li as int) < nodes0[pj].next@.len());
                } else {
                    assert(pj == 0);
                    assert(nodes0[0].next@.len() == ml);
                }
                // the doomed node is never its own predecessor
                assert(pj != tgt) by {
                    if pj == tgt {
                        assert(lex_lt(nodes0[tgt].key@, key@));
                        lemma_lex_total(nodes0[tgt].key@, key@);
                    }
                }
            }
            let pj = prevs[li];
            let s2 = self.nodes[succ].next[li];
            self.nodes[pj].next[li] = s2;
            li = li + 1;
        }
        let ghost nodes_f = self.nodes@;
        proof {
            let newchains = Seq::new(
                ml as nat,
                |j: int|
                    if j < lv {
                        chains0[j].remove(poss[j] + 1)
                    } else {
                        chains0[j]
                    },
            );
            self.chains@ = newchains;
            assert forall|j: int| 0 <= j < ml implies #[trigger] newchains[j] == (if j < lv as int {
                chains0[j].remove(poss[j] + 1)
            } else {
                chains0[j]
            }) by {}
            assert forall|j: int|
                #![trigger chains0[j]]
                0 <= j < lv implies poss[j] + 1 < chains0[j].len() && chains0[j][poss[j] + 1]
                == tgt by {
                let c = chains0[j];
                assert(chains0[j].contains(tgt));
                let q = choose|q: int| 0 <= q < c.len() && c[q] == tgt;
                assert(prev_ok_at(nodes0, c, prevs@[j] as int, poss[j], key@));
                lemma_chain_distinct(nodes0, c);
                let pp = poss[j];
                if q <= pp {
                    assert(lex_lt(nodes0[c[pp]].key@, key@));
                    if q < pp {
                        assert(lex_lt(nodes0[c[q]].key@, nodes0[c[pp]].key@));
                        lemma_lex_total(nodes0[c[q]].key@, nodes0[c[pp]].key@);
                    }
                    lemma_lex_total(nodes0[c[pp]].key@, key@);
                    assert(false);
                }
                if q > pp + 1 {
                    assert(lex_lt(nodes0[c[pp + 1]].key@, nodes0[c[q]].key@));
                    assert(!lex_lt(nodes0[c[pp + 1]].key@, key@));
                    assert(false);
                }
            }
            lemma_unsplice_wf(
                nodes0,
                chains0,
                ml,
                nodes_f,
                newchains,
                prevs@,
                poss,
                lv as int,
                tgt,
                key@,
            );
            assert(self.chains@ == newchains);
            assert(self.nodes@ == nodes_f);
            assert(nodes_f[0].next@.len() == nodes0[0].next@.len());
            assert(self.wf());
            assert(self@ == old(self)@.remove(key@));
        }
    }

    /// The keys currently present, in strictly increasing order: walking the
    /// level-0 chain visits exactly the map's keys, sorted.
    #[verifier::loop_isolation(false)]
    pub fn keys_in_order(&self) -> (r: Vec<Vec<u8>>)
        requires
            self.wf(),
        ensures
            forall|p: int, q: int| 0 <= p < q < r@.len() ==> lex_lt(#[trigger] r@[p]@, #[trigger] r@[q]@),
            forall|p: int| 0 <= p < r@.len() ==> self@.contains_key(#[trigger] r@[p]@),
            forall|k: Seq<u8>| self@.contains_key(k) ==> exists|p: int| 0 <= p < r@.len() && #[trigger] r@[p]@ == k,
    {
        let ghost c0 = self.chains@[0];
        let mut out: Vec<Vec<u8>> = Vec::new();
        let mut curr: usize = self.nodes[0].next[0];
        let ghost mut p: int = 0;
        proof {
            assert(chain_links_ok(self.nodes@, c0, 0));
            assert(curr as int == (if c0.len() == 0 {
                0int
            } else {
                c0[0]
            }));
        }
        while curr != 0
            invariant
                self.wf(),
                c0 == self.chains@[0],
                0 <= p <= c0.len(),
                out@.len() == p,
                forall|q: int| 0 <= q < p ==> (#[trigger] out@[q])@ == self.nodes@[c0[q]].key@,
                curr as int == (if p < c0.len() {
                    c0[p]
                } else {
                    0int
                }),
            decreases c0.len() - p,
        {
            out.push(copy_bytes(&self.nodes[curr].key));
            curr = self.nodes[curr].next[0];
            proof {
                p = p + 1;
            }
        }
        proof {
            let nodes = self.nodes@;
            lemma_chain_distinct(nodes, c0);
            assert forall|pp: int, q: int| 0 <= pp < q < out@.len() implies lex_lt(
                (#[trigger] out@[pp])@,
                (#[trigger] out@[q])@,
            ) by {
                assert(lex_lt(nodes[c0[pp]].key@, nodes[c0[q]].key@));
            }
            assert forall|pp: int| 0 <= pp < out@.len() implies self@.contains_key(
                (#[trigger] out@[pp])@,
            ) by {
                lemma_kv_map_has(nodes, c0, pp);
            }
            assert forall|k: Seq<u8>| self@.contains_key(k) implies exists|q: int|
                0 <= q < out@.len() && (#[trigger] out@[q])@ == k by {
                if forall|q: int| 0 <= q < c0.len() ==> nodes[#[trigger] c0[q]].key@ != k {
                    lemma_kv_map_absent(nodes, c0, k);
                } else {
                    let q = choose|q: int| 0 <= q < c0.len() && nodes[#[trigger] c0[q]].key@ == k;
                    assert(out@[q]@ == k);
                }
            }
        }
        out
    }

    /// No node of any chain carries `key`, given the level-0 evidence.
    proof fn lemma_no_key(&self, p: int, key: Seq<u8>)
        requires
            self.wf(),
            -1 <= p < self.chains@[0].len(),
            p >= 0 ==> lex_lt(self.nodes@[self.chains@[0][p]].key@, key),
            p + 1 < self.chains@[0].len() ==> lex_lt(key, self.nodes@[self.chains@[0][p + 1]].key@),
        ensures
            forall|q: int|
                0 <= q < self.chains@[0].len() ==> self.nodes@[#[trigger] self.chains@[0][q]].key@
                    != key,
    {
        let c = self.chains@[0];
        let nodes = self.nodes@;
        assert forall|q: int| 0 <= q < c.len() implies nodes[#[trigger] c[q]].key@ != key by {
            if q <= p {
                if q < p {
                    assert(lex_lt(nodes[c[q]].key@, nodes[c[p]].key@));
                    lemma_lex_trans(nodes[c[q]].key@, nodes[c[p]].key@, key);
                }
                lemma_lex_total(nodes[c[q]].key@, key);
            } else {
                if q > p + 1 {
                    assert(lex_lt(nodes[c[p + 1]].key@, nodes[c[q]].key@));
                    lemma_lex_trans(key, nodes[c[p + 1]].key@, nodes[c[q]].key@);
                }
                lemma_lex_total(key, nodes[c[q]].key@);
            }
        }
    }
}

} // verus!
