//! Lazy enumeration of the N cheapest distinct complete paths, in
//! non-decreasing cost order: a priority queue of partial paths grown
//! backwards from end-of-sentence, ordered by exact suffix cost plus the
//! settled forward best cost of the partial path's first node.

use vstd::prelude::*;
use vstd::arithmetic::power::pow;
use vstd::arithmetic::power::lemma_pow_positive;

use crate::MecabError;
use crate::dict::Model;
use crate::dict::ModelView;
use crate::lattice::GraphView;
use crate::lattice::Lattice;
use crate::lattice::id_list_sorted;
use crate::lattice::ids_in_model;
use crate::lattice::node_end;
use crate::lattice::valid_id;
use crate::lattice::wf_graph;
use crate::search::alpha;
use crate::search::alpha_mag;
use crate::search::best_pred;
use crate::search::cost_rank;
use crate::search::edge_cost;
use crate::search::forward_ok;
use crate::search::fw_node_ok;
use crate::search::lemma_alpha_bounds;
use crate::search::lemma_best_pred_props;
use crate::search::check_ids;
use crate::search::forward_pass;
use crate::search::word_cost;

verus! {

/// A queued partial path: `path` runs from `head` to end-of-sentence,
/// `g` is its exact cost not counting `head`'s own word cost, and `f`
/// adds the cheapest way of reaching `head` from begin-of-sentence.
struct QItem {
    head: usize,
    path: Vec<usize>,
    g: i64,
    f: i64,
}

/// The exact cost of a backward-grown chain, not counting the word cost
/// of its first node: every transition, and every later word.
#[verifier::opaque]
pub open spec fn chain_cost(m: ModelView, g: GraphView, p: Seq<usize>) -> int
    decreases p.len(),
{
    if p.len() <= 1 {
        0
    } else {
        edge_cost(m, g, p[0] as int, p[1] as int) + word_cost(g, p[1] as int) + chain_cost(
            m,
            g,
            p.drop_first(),
        )
    }
}

/// A chain of listed edges ending at end-of-sentence.
#[verifier::opaque]
pub open spec fn suffix_chain(g: GraphView, p: Seq<usize>) -> bool {
    &&& p.len() >= 1
    &&& p.last() as int == g.eos
    &&& forall|i: int| 0 <= i < p.len() ==> valid_id(g, #[trigger] p[i] as int)
    &&& forall|i: int|
        0 <= i < p.len() - 1 ==> g.ends[g.nodes[p[i + 1] as int].begin].contains(
            #[trigger] p[i] as int,
        )
}

/// A complete candidate segmentation: a suffix chain that starts at
/// begin-of-sentence and visits it exactly once.
pub open spec fn complete_chain(g: GraphView, p: Seq<usize>) -> bool {
    &&& suffix_chain(g, p)
    &&& p[0] as int == g.bos
    &&& forall|i: int| 1 <= i < p.len() ==> #[trigger] p[i] as int != g.bos
}

/// Whether `s` is the tail end of `p`.
pub open spec fn chain_suffix(p: Seq<usize>, s: Seq<usize>) -> bool {
    s.len() <= p.len() && p.subrange(p.len() - s.len(), p.len() as int) == s
}

/// What the queue invariant holds of one item.
#[verifier::opaque]
spec fn item_ok(m: ModelView, g: GraphView, it: QItem) -> bool {
    &&& suffix_chain(g, it.path@)
    &&& it.path@[0] == it.head
    &&& alpha(m, g, it.head as int) is Some
    &&& it.g as int == chain_cost(m, g, it.path@)
    &&& it.f as int == alpha(m, g, it.head as int).unwrap() + it.g as int
    &&& -(0x20000 * it.path@.len()) <= it.g as int <= 0x20000 * it.path@.len()
    &&& it.path@.len() + cost_rank(g, it.head as int) <= 2 * g.len + 3
    &&& forall|i: int| 1 <= i < it.path@.len() ==> #[trigger] it.path@[i] as int != g.bos
}

/// Termination weight of one queued item: shorter partial paths can
/// still spawn more work, so they weigh exponentially more.
spec fn qterm(g: GraphView, nn: int, it: QItem) -> int {
    pow(nn + 1, (2 * g.len + 3 - it.path@.len()) as nat)
}

/// Total termination weight of the queue.
spec fn qpot(g: GraphView, nn: int, q: Seq<QItem>) -> int
    decreases q.len(),
{
    if q.len() == 0 {
        0
    } else {
        qterm(g, nn, q[0]) + qpot(g, nn, q.drop_first())
    }
}

proof fn lemma_qpot_push(g: GraphView, nn: int, q: Seq<QItem>, c: QItem)
    ensures
        qpot(g, nn, q.push(c)) == qpot(g, nn, q) + qterm(g, nn, c),
    decreases q.len(),
{
    assert(q.push(c)[0] == if q.len() == 0 {
        c
    } else {
        q[0]
    });
    assert(qpot(g, nn, q.push(c)) == qterm(g, nn, q.push(c)[0]) + qpot(
        g,
        nn,
        q.push(c).drop_first(),
    ));
    if q.len() == 0 {
        assert(q.push(c).drop_first() =~= Seq::<QItem>::empty());
        assert(qpot(g, nn, q.push(c).drop_first()) == 0);
    } else {
        assert(q.push(c).drop_first() =~= q.drop_first().push(c));
        lemma_qpot_push(g, nn, q.drop_first(), c);
        assert(qpot(g, nn, q) == qterm(g, nn, q[0]) + qpot(g, nn, q.drop_first()));
    }
}

proof fn lemma_qpot_remove(g: GraphView, nn: int, q: Seq<QItem>, i: int)
    requires
        0 <= i < q.len(),
    ensures
        qpot(g, nn, q.remove(i)) == qpot(g, nn, q) - qterm(g, nn, q[i]),
    decreases q.len(),
{
    if i == 0 {
        assert(q.remove(0) =~= q.drop_first());
    } else {
        assert(q.remove(i).drop_first() =~= q.drop_first().remove(i - 1));
        lemma_qpot_remove(g, nn, q.drop_first(), i - 1);
    }
}

proof fn lemma_qpot_nonneg(g: GraphView, nn: int, q: Seq<QItem>)
    requires
        nn >= 0,
    ensures
        qpot(g, nn, q) >= 0,
    decreases q.len(),
{
    if q.len() > 0 {
        lemma_pow_positive(nn + 1, (2 * g.len + 3 - q[0].path@.len()) as nat);
        lemma_qpot_nonneg(g, nn, q.drop_first());
    }
}

/// A strictly increasing list of ids below `nn` has at most `nn` entries.
proof fn lemma_sorted_len(l: Seq<int>, nn: int)
    requires
        nn >= 0,
        id_list_sorted(l),
        forall|k: int| 0 <= k < l.len() ==> 0 <= #[trigger] l[k] < nn,
    ensures
        l.len() <= nn,
{
    if l.len() > nn {
        assert forall|k: int| 0 <= k < l.len() implies l[k] >= k by {
            lemma_sorted_lower(l, k);
        }
        assert(l[nn] >= nn);
    }
}

proof fn lemma_sorted_lower(l: Seq<int>, k: int)
    requires
        id_list_sorted(l),
        forall|k2: int| 0 <= k2 < l.len() ==> 0 <= #[trigger] l[k2],
        0 <= k < l.len(),
    ensures
        l[k] >= k,
    decreases k,
{
    if k > 0 {
        lemma_sorted_lower(l, k - 1);
    }
}

/// A one-step extension of a sound partial path is itself sound, and
/// never undercuts it; extending through a cost-achieving predecessor
/// keeps the combined cost exactly.
#[verifier::rlimit(100)]
#[verifier::spinoff_prover]
proof fn lemma_child_ok(m: ModelView, g: GraphView, it: QItem, child: QItem)
    requires
        wf_graph(g),
        item_ok(m, g, it),
        it.head as int != g.bos,
        valid_id(g, child.head as int),
        g.ends[g.nodes[it.head as int].begin].contains(child.head as int),
        node_end(g, child.head as int) == g.nodes[it.head as int].begin,
        alpha(m, g, child.head as int) is Some,
        child.path@ == seq![child.head].add(it.path@),
        child.g as int == it.g as int + edge_cost(m, g, child.head as int, it.head as int)
            + word_cost(g, it.head as int),
        child.f as int == alpha(m, g, child.head as int).unwrap() + child.g as int,
    ensures
        item_ok(m, g, child),
        child.f as int >= it.f as int,
        alpha(m, g, child.head as int) == Option::Some(
            best_pred(m, g, it.head as int, 0).unwrap() - edge_cost(
                m,
                g,
                child.head as int,
                it.head as int,
            ),
        ) ==> child.f as int == it.f as int,
{
    reveal(item_ok);
    reveal(suffix_chain);
    reveal(chain_cost);
    let pr = child.head as int;
    let hd = it.head as int;
    let it_path = it.path@;
    let cp = child.path@;
    if pr != g.bos {
        assert(g.nodes[pr].length >= 1);
    }
    assert(cost_rank(g, pr) < cost_rank(g, hd));
    assert(cp[0] == child.head && cp.len() == it_path.len() + 1);
    assert forall|i: int| 0 <= i < cp.len() implies valid_id(g, #[trigger] cp[i] as int) by {
        if i >= 1 {
            assert(cp[i] == it_path[i - 1]);
        }
    }
    assert forall|i: int|
        0 <= i < cp.len() - 1 implies g.ends[g.nodes[cp[i + 1] as int].begin].contains(
        #[trigger] cp[i] as int,
    ) by {
        if i == 0 {
            assert(cp[1] == it_path[0]);
        } else {
            assert(cp[i] == it_path[i - 1] && cp[i + 1] == it_path[i]);
        }
    }
    assert(cp.last() == it_path.last());
    assert(suffix_chain(g, cp));
    assert forall|i: int| 1 <= i < cp.len() implies #[trigger] cp[i] as int != g.bos by {
        assert(cp[i] == it_path[i - 1]);
    }
    assert(cp.drop_first() =~= it_path);
    assert(chain_cost(m, g, cp) == edge_cost(m, g, pr, hd) + word_cost(g, hd) + chain_cost(
        m,
        g,
        it_path,
    ));
    assert(item_ok(m, g, child));
    lemma_best_pred_props(m, g, hd, 0);
    assert(best_pred(m, g, hd, 0) is Some && best_pred(m, g, hd, 0).unwrap() <= alpha(
        m,
        g,
        pr,
    ).unwrap() + edge_cost(m, g, pr, hd));
    assert(alpha(m, g, hd).unwrap() == best_pred(m, g, hd, 0).unwrap() + word_cost(g, hd));
}

/// Pushing a sound, fresh, no-cheaper partial path preserves the
/// enumerator invariant.
#[verifier::rlimit(100)]
proof fn lemma_push_keeps_inv(pre: NBest, post: NBest, it: QItem, child: QItem)
    requires
        pre.inv_base(),
        post.gv == pre.gv,
        post.mv == pre.mv,
        post.total == pre.total,
        post.cost == pre.cost,
        post.reach == pre.reach,
        post.prev == pre.prev,
        post.emitted_g == pre.emitted_g,
        post.emitted_f == pre.emitted_f,
        post.expanded == pre.expanded,
        post.queue@ == pre.queue@.push(child),
        item_ok(pre.mv@, pre.gv@, child),
        child.f as int >= it.f as int,
        it.path@.len() >= 1,
        child.path@.len() == it.path@.len() + 1,
        child.path@.drop_first() == it.path@,
        !pre.expanded@.contains(it.path@),
        it.f as int >= pre.last_f(),
        pre.emitted_g@.len() == 0 ==> it.f as int == pre.total as int,
        forall|i: int|
            0 <= i < pre.queue@.len() ==> (#[trigger] pre.queue@[i]).path@ != child.path@,
    ensures
        post.inv_base(),
{
    let q1 = post.queue@;
    let qpre = pre.queue@;
    let cp = child.path@;
    let m = pre.mv@;
    let g = pre.gv@;
    assert(!pre.expanded@.contains(cp)) by {
        if pre.expanded@.contains(cp) {
            assert(pre.expanded@.contains(cp.drop_first()));
        }
    }
    assert forall|i: int| 0 <= i < q1.len() implies item_ok(m, g, #[trigger] q1[i]) by {
        if i < qpre.len() {
            assert(q1[i] == qpre[i]);
        } else {
            assert(q1[i] == child);
        }
    }
    assert forall|i: int| 0 <= i < q1.len() implies (#[trigger] q1[i]).f as int >= post.last_f() by {
        if i < qpre.len() {
            assert(q1[i] == qpre[i]);
        } else {
            assert(q1[i] == child);
        }
    }
    assert forall|i: int, j: int|
        0 <= i < j < q1.len() implies (#[trigger] q1[i]).path@ != (#[trigger] q1[j]).path@ by {
        if j < qpre.len() {
            assert(q1[i] == qpre[i] && q1[j] == qpre[j]);
        } else {
            assert(q1[i] == qpre[i] && q1[j] == child);
        }
    }
    assert forall|i: int, k: int|
        0 <= i < q1.len() && 0 <= k < post.emitted_g@.len() implies (#[trigger] q1[i]).path@
        != #[trigger] post.emitted_g@[k] by {
        if i < qpre.len() {
            assert(q1[i] == qpre[i]);
        } else {
            assert(q1[i] == child);
            if post.emitted_g@[k] == cp {
                assert(pre.expanded@.contains(post.emitted_g@[k].drop_first()));
                assert(pre.expanded@.contains(it.path@));
            }
        }
    }
    assert forall|i: int| 0 <= i < q1.len() implies !post.expanded@.contains(
        (#[trigger] q1[i]).path@,
    ) by {
        if i < qpre.len() {
            assert(q1[i] == qpre[i]);
        } else {
            assert(q1[i] == child);
        }
    }
}

/// Taking one item out of the queue keeps the base invariant.
#[verifier::rlimit(100)]
proof fn lemma_remove_keeps_base(pre: NBest, post: NBest, mi: int)
    requires
        pre.inv_base(),
        pre.tails_ok(),
        0 <= mi < pre.queue@.len(),
        post.gv == pre.gv,
        post.mv == pre.mv,
        post.total == pre.total,
        post.cost == pre.cost,
        post.reach == pre.reach,
        post.prev == pre.prev,
        post.emitted_g == pre.emitted_g,
        post.emitted_f == pre.emitted_f,
        post.expanded == pre.expanded,
        post.queue@ == pre.queue@.remove(mi),
    ensures
        post.inv_base(),
        post.tails_ok(),
{
    let q0 = pre.queue@;
    let q1 = post.queue@;
    assert forall|i: int| 0 <= i < q1.len() implies {
        &&& item_ok(pre.mv@, pre.gv@, #[trigger] q1[i])
        &&& q1[i].f as int >= post.last_f()
        &&& !post.expanded@.contains(q1[i].path@)
        &&& (q1[i].path@.len() >= 2 ==> post.expanded@.contains(q1[i].path@.drop_first()))
    } by {
        if i < mi {
            assert(q1[i] == q0[i]);
        } else {
            assert(q1[i] == q0[i + 1]);
        }
    }
    assert forall|i: int, j: int|
        0 <= i < j < q1.len() implies (#[trigger] q1[i]).path@ != (#[trigger] q1[j]).path@ by {
        let i0 = if i < mi { i } else { i + 1 };
        let j0 = if j < mi { j } else { j + 1 };
        assert(q1[i] == q0[i0] && q1[j] == q0[j0]);
    }
    assert forall|i: int, k: int|
        0 <= i < q1.len() && 0 <= k < post.emitted_g@.len() implies (#[trigger] q1[i]).path@
        != #[trigger] post.emitted_g@[k] by {
        let i0 = if i < mi { i } else { i + 1 };
        assert(q1[i] == q0[i0]);
    }
}

/// Every node a chain from begin-of-sentence passes through is
/// reachable: the chain itself witnesses a way of arriving there.
#[verifier::rlimit(100)]
proof fn lemma_prefix_reachable(m: ModelView, g: GraphView, p: Seq<usize>, k: int)
    requires
        wf_graph(g),
        p.len() >= 1,
        p[0] as int == g.bos,
        forall|i: int| 0 <= i < p.len() ==> valid_id(g, #[trigger] p[i] as int),
        forall|i: int|
            0 <= i < p.len() - 1 ==> g.ends[g.nodes[p[i + 1] as int].begin].contains(
                #[trigger] p[i] as int,
            ),
        forall|i: int| 1 <= i < p.len() ==> #[trigger] p[i] as int != g.bos,
        0 <= k < p.len(),
    ensures
        alpha(m, g, p[k] as int) is Some,
    decreases k,
{
    if k == 0 {
        assert(alpha(m, g, g.bos) == Option::Some(0int));
    } else {
        lemma_prefix_reachable(m, g, p, k - 1);
        let n = p[k] as int;
        let q = p[k - 1] as int;
        assert(g.ends[g.nodes[n].begin].contains(q));
        let w = choose|w: int|
            0 <= w < g.ends[g.nodes[n].begin].len() && g.ends[g.nodes[n].begin][w] == q;
        lemma_best_pred_props(m, g, n, 0);
        assert(alpha(m, g, g.ends[g.nodes[n].begin][w]) is Some);
        assert(best_pred(m, g, n, 0) is Some);
    }
}

/// A complete chain that ends in a queued partial path, but extends it,
/// determines the next reachable predecessor to grow the partial path by.
#[verifier::rlimit(100)]
proof fn lemma_extend_witness(m: ModelView, g: GraphView, p: Seq<usize>, tail: Seq<usize>)
    requires
        wf_graph(g),
        complete_chain(g, p),
        chain_suffix(p, tail),
        tail.len() >= 1,
        tail[0] as int != g.bos,
    ensures
        p.len() > tail.len(),
        g.ends[g.nodes[tail[0] as int].begin].contains(
            p[p.len() - tail.len() - 1] as int,
        ),
        alpha(m, g, p[p.len() - tail.len() - 1] as int) is Some,
        chain_suffix(p, seq![p[p.len() - tail.len() - 1]] + tail),
{
    reveal(suffix_chain);
    let pl = p.len() as int;
    let sl = tail.len() as int;
    assert(p.subrange(pl - sl, pl) == tail);
    assert(p.subrange(pl - sl, pl)[0] == p[pl - sl]);
    if pl == sl {
        assert(p[0] == tail[0]);
    }
    assert(pl > sl);
    assert(p[pl - sl] == tail[0]);
    let q = p[pl - sl - 1];
    assert(g.ends[g.nodes[p[(pl - sl - 1) + 1] as int].begin].contains(q as int));
    lemma_prefix_reachable(m, g, p, pl - sl - 1);
    assert(p.subrange(pl - (sl + 1), pl) =~= seq![q] + tail);
}

/// The facts about a queued item that its consumers need, without
/// opening the chain predicates themselves.
proof fn lemma_item_facts(m: ModelView, g: GraphView, it: QItem)
    requires
        wf_graph(g),
        item_ok(m, g, it),
    ensures
        1 <= it.path@.len(),
        it.path@[0] == it.head,
        valid_id(g, it.head as int),
        it.path@.last() as int == g.eos,
        alpha(m, g, it.head as int) is Some,
        it.f as int == alpha(m, g, it.head as int).unwrap() + it.g as int,
        it.g as int == chain_cost(m, g, it.path@),
        -(0x20000 * it.path@.len()) <= it.g as int <= 0x20000 * it.path@.len(),
        it.path@.len() + cost_rank(g, it.head as int) <= 2 * g.len + 3,
{
    reveal(item_ok);
    reveal(suffix_chain);
}

/// What emitting a complete queued item hands out: a complete chain
/// whose total cost is the item's combined cost.
proof fn lemma_emit_facts(m: ModelView, g: GraphView, it: QItem)
    requires
        wf_graph(g),
        item_ok(m, g, it),
        it.head as int == g.bos,
    ensures
        complete_chain(g, it.path@),
        chain_cost(m, g, it.path@) == it.f as int,
        it.path@.len() >= 2,
        it.path@[0] as int == g.bos,
{
    reveal(item_ok);
    reveal(suffix_chain);
    assert(alpha(m, g, g.bos) == Option::Some(0int));
    if it.path@.len() == 1 {
        assert(it.path@[0] as int == g.bos && it.path@.last() as int == g.eos);
    }
}

/// Moving the cheapest queued complete path to the emitted history
/// preserves the invariant: nothing in the queue undercuts it, and it
/// was never handed out before.
#[verifier::rlimit(100)]
proof fn lemma_emit_keeps_inv(pre: NBest, post: NBest, it: QItem)
    requires
        pre.inv_base(),
        pre.tails_ok(),
        post.gv == pre.gv,
        post.mv == pre.mv,
        post.total == pre.total,
        post.cost == pre.cost,
        post.reach == pre.reach,
        post.prev == pre.prev,
        post.queue == pre.queue,
        post.expanded == pre.expanded,
        post.emitted_g@ == pre.emitted_g@.push(it.path@),
        post.emitted_f@ == pre.emitted_f@.push(it.f as int),
        item_ok(pre.mv@, pre.gv@, it),
        it.head as int == pre.gv@.bos,
        it.f as int >= pre.last_f(),
        pre.emitted_g@.len() == 0 ==> it.f as int == pre.total as int,
        forall|i: int|
            0 <= i < pre.queue@.len() ==> (#[trigger] pre.queue@[i]).f as int >= it.f as int,
        forall|i: int|
            0 <= i < pre.queue@.len() ==> (#[trigger] pre.queue@[i]).path@ != it.path@,
        forall|k: int|
            0 <= k < pre.emitted_g@.len() ==> #[trigger] pre.emitted_g@[k] != it.path@,
        it.path@.len() >= 2 ==> pre.expanded@.contains(it.path@.drop_first()),
        forall|ch: Seq<usize>|
            #[trigger] complete_chain(pre.gv@, ch) && !pre.emitted_g@.contains(ch) ==> (exists|
                i: int,
            |
                0 <= i < pre.queue@.len() && chain_suffix(ch, (#[trigger] pre.queue@[i]).path@))
                || chain_suffix(ch, it.path@),
    ensures
        post.inv(),
        post.tails_ok(),
{
    lemma_emit_facts(pre.mv@, pre.gv@, it);
    let ef1 = post.emitted_f@;
    let ef0 = pre.emitted_f@;
    assert forall|k1: int, k2: int|
        0 <= k1 <= k2 < ef1.len() implies #[trigger] ef1[k1] <= #[trigger] ef1[k2] by {
        if k2 == ef1.len() - 1 && k1 < k2 {
            assert(ef1[k1] == ef0[k1]);
            assert(ef0[k1] <= ef0.last());
        }
    }
    assert forall|k: int| 0 <= k < post.emitted_g@.len() implies complete_chain(
        post.gv@,
        #[trigger] post.emitted_g@[k],
    ) && post.emitted_f@[k] == chain_cost(post.mv@, post.gv@, post.emitted_g@[k]) by {
        if k < ef0.len() {
            assert(post.emitted_g@[k] == pre.emitted_g@[k]);
            assert(post.emitted_f@[k] == ef0[k]);
        }
    }
    assert forall|k: int| 0 <= k < ef1.len() implies #[trigger] ef1[k] >= post.total as int by {
        if k < ef0.len() {
            assert(ef1[k] == ef0[k]);
        }
    }
    assert forall|k1: int, k2: int|
        0 <= k1 < k2 < post.emitted_g@.len() implies #[trigger] post.emitted_g@[k1]
        != #[trigger] post.emitted_g@[k2] by {
        if k2 == post.emitted_g@.len() - 1 {
            assert(post.emitted_g@[k1] == pre.emitted_g@[k1]);
        } else {
            assert(post.emitted_g@[k1] == pre.emitted_g@[k1]);
            assert(post.emitted_g@[k2] == pre.emitted_g@[k2]);
        }
    }
    assert forall|i: int, k: int|
        0 <= i < post.queue@.len() && 0 <= k < post.emitted_g@.len() implies (
    #[trigger] post.queue@[i]).path@ != #[trigger] post.emitted_g@[k] by {
        if k < pre.emitted_g@.len() {
            assert(post.emitted_g@[k] == pre.emitted_g@[k]);
        }
    }
    assert forall|k: int|
        0 <= k < post.emitted_g@.len() && (#[trigger] post.emitted_g@[k]).len()
            >= 2 implies post.expanded@.contains(post.emitted_g@[k].drop_first()) by {
        if k < pre.emitted_g@.len() {
            assert(post.emitted_g@[k] == pre.emitted_g@[k]);
        }
    }
    assert forall|ch: Seq<usize>|
        #[trigger] complete_chain(post.gv@, ch) && !post.emitted_g@.contains(ch) implies exists|
        i: int,
    |
        0 <= i < post.queue@.len() && chain_suffix(ch, (#[trigger] post.queue@[i]).path@) by {
        assert(!pre.emitted_g@.contains(ch)) by {
            if pre.emitted_g@.contains(ch) {
                let k = choose|k: int|
                    0 <= k < pre.emitted_g@.len() && pre.emitted_g@[k] == ch;
                assert(post.emitted_g@[k] == ch);
            }
        }
        if !(exists|i: int|
            0 <= i < pre.queue@.len() && chain_suffix(ch, (#[trigger] pre.queue@[i]).path@)) {
            assert(chain_suffix(ch, it.path@));
            assert(post.emitted_g@.last() == it.path@);
            let pl = ch.len() as int;
            let sl = it.path@.len() as int;
            assert(ch.subrange(pl - sl, pl) == it.path@);
            assert(ch.subrange(pl - sl, pl)[0] == ch[pl - sl]);
            assert(ch[pl - sl] as int == pre.gv@.bos);
            if pl == sl {
                assert(ch =~= it.path@);
                assert(post.emitted_g@.contains(ch));
            } else {
                assert(ch[pl - sl] as int != pre.gv@.bos);
            }
        }
    }
}

/// Recording a fully expanded partial path keeps the invariant: nothing
/// equal to it sits in the queue, and its own tail was recorded earlier.
#[verifier::rlimit(100)]
proof fn lemma_mark_expanded(pre: NBest, post: NBest, it: QItem)
    requires
        pre.inv_base(),
        post.gv == pre.gv,
        post.mv == pre.mv,
        post.total == pre.total,
        post.cost == pre.cost,
        post.reach == pre.reach,
        post.prev == pre.prev,
        post.emitted_g == pre.emitted_g,
        post.emitted_f == pre.emitted_f,
        post.queue == pre.queue,
        post.expanded@ == pre.expanded@.insert(it.path@),
        !pre.expanded@.contains(it.path@),
        it.path@.len() >= 2 ==> pre.expanded@.contains(it.path@.drop_first()),
        forall|i: int|
            0 <= i < pre.queue@.len() ==> (#[trigger] pre.queue@[i]).path@ != it.path@,
    ensures
        post.inv_base(),
{
    let q = post.queue@;
    assert forall|i: int| 0 <= i < q.len() implies !post.expanded@.contains(
        (#[trigger] q[i]).path@,
    ) by {
        assert(q[i].path@ != it.path@);
        assert(!pre.expanded@.contains(q[i].path@));
    }
    assert forall|x: Seq<usize>|
        post.expanded@.contains(x) && x.len() >= 2 implies post.expanded@.contains(
        #[trigger] x.drop_first(),
    ) by {
        if x == it.path@ {
            assert(pre.expanded@.contains(it.path@.drop_first()));
        } else {
            assert(pre.expanded@.contains(x));
        }
    }
}

/// The lazy N-best enumerator: a restartable producer of complete paths
/// in non-decreasing cost order, never repeating a path.
pub struct NBest {
    queue: Vec<QItem>,
    cost: Vec<i64>,
    reach: Vec<bool>,
    prev: Vec<usize>,
    total: i64,
    gv: Ghost<GraphView>,
    mv: Ghost<ModelView>,
    expanded: Ghost<Set<Seq<usize>>>,
    emitted_g: Ghost<Seq<Seq<usize>>>,
    emitted_f: Ghost<Seq<int>>,
}

impl NBest {
    /// The graph this enumerator was created over.
    pub closed spec fn graph(&self) -> GraphView {
        self.gv@
    }

    /// The model this enumerator was created with.
    pub closed spec fn model(&self) -> ModelView {
        self.mv@
    }

    /// Every complete path handed out so far, in order.
    pub closed spec fn emitted(&self) -> Seq<Seq<usize>> {
        self.emitted_g@
    }

    /// The total cost of each path handed out so far, in order.
    pub closed spec fn emitted_costs(&self) -> Seq<int> {
        self.emitted_f@
    }

    /// The cost of the single best path.
    pub closed spec fn z(&self) -> int {
        self.total as int
    }

    /// The cost that no future path can undercut.
    spec fn last_f(&self) -> int {
        if self.emitted_f@.len() == 0 {
            self.total as int
        } else {
            self.emitted_f@.last()
        }
    }

    /// The enumerator's invariant, except that the cheapest path may be
    /// momentarily in flight between the queue and the emitted history.
    pub closed spec fn inv_base(&self) -> bool {
        let m = self.mv@;
        let g = self.gv@;
        &&& wf_graph(g)
        &&& m.loaded
        &&& crate::dict::model_data_ok(m)
        &&& ids_in_model(g.nodes, m)
        &&& forward_ok(m, g, self.cost@, self.reach@, self.prev@)
        &&& alpha(m, g, g.eos) == Option::Some(self.total as int)
        &&& forall|i: int| 0 <= i < self.queue@.len() ==> item_ok(m, g, #[trigger] self.queue@[i])
        &&& forall|i: int|
            0 <= i < self.queue@.len() ==> (#[trigger] self.queue@[i]).f as int >= self.last_f()
        &&& self.emitted_f@.len() == self.emitted_g@.len()
        &&& forall|k1: int, k2: int|
            0 <= k1 <= k2 < self.emitted_f@.len() ==> #[trigger] self.emitted_f@[k1]
                <= #[trigger] self.emitted_f@[k2]
        &&& forall|k: int|
            0 <= k < self.emitted_g@.len() ==> complete_chain(g, #[trigger] self.emitted_g@[k])
                && self.emitted_f@[k] == chain_cost(m, g, self.emitted_g@[k])
        &&& (self.emitted_f@.len() > 0 ==> self.emitted_f@[0] == self.total as int)
        &&& forall|k: int| 0 <= k < self.emitted_f@.len() ==> #[trigger] self.emitted_f@[k] >= self.total as int
        &&& forall|i: int, j: int|
            0 <= i < j < self.queue@.len() ==> (#[trigger] self.queue@[i]).path@ != (
            #[trigger] self.queue@[j]).path@
        &&& forall|i: int, k: int|
            0 <= i < self.queue@.len() && 0 <= k < self.emitted_g@.len() ==> (
            #[trigger] self.queue@[i]).path@ != #[trigger] self.emitted_g@[k]
        &&& forall|k1: int, k2: int|
            0 <= k1 < k2 < self.emitted_g@.len() ==> #[trigger] self.emitted_g@[k1]
                != #[trigger] self.emitted_g@[k2]
        &&& forall|i: int|
            0 <= i < self.queue@.len() ==> !self.expanded@.contains(
                (#[trigger] self.queue@[i]).path@,
            )
        &&& forall|k: int|
            0 <= k < self.emitted_g@.len() && (#[trigger] self.emitted_g@[k]).len() >= 2
                ==> self.expanded@.contains(self.emitted_g@[k].drop_first())
        &&& forall|x: Seq<usize>|
            self.expanded@.contains(x) && x.len() >= 2 ==> self.expanded@.contains(
                #[trigger] x.drop_first(),
            )
    }

    /// The enumerator's invariant: while nothing has been emitted, some
    /// queued partial path still carries the best total cost, and every
    /// complete path not yet handed out can still be grown from a queued
    /// partial path.
    pub closed spec fn inv(&self) -> bool {
        &&& self.inv_base()
        &&& (self.emitted_g@.len() == 0 ==> exists|i: int|
            0 <= i < self.queue@.len() && (#[trigger] self.queue@[i]).f as int
                == self.total as int)
        &&& forall|p: Seq<usize>|
            #[trigger] complete_chain(self.gv@, p) && !self.emitted_g@.contains(p)
                ==> exists|i: int|
                0 <= i < self.queue@.len() && chain_suffix(p, (#[trigger] self.queue@[i]).path@)
    }

    /// Every queued partial path other than the initial stub grew out of
    /// a partial path that was already fully expanded.
    pub closed spec fn tails_ok(&self) -> bool {
        forall|i: int|
            0 <= i < self.queue@.len() && (#[trigger] self.queue@[i]).path@.len() >= 2
                ==> self.expanded@.contains(self.queue@[i].path@.drop_first())
    }

    /// The weakening of [`NBest::tails_ok`] that holds while one popped
    /// partial path is being expanded: its fresh children name it as
    /// their tail, and their first nodes come from the already-scanned
    /// prefix of its predecessor list.
    spec fn tails_mid(&self, it_path: Seq<usize>, pfx: Seq<int>) -> bool {
        forall|i: int|
            0 <= i < self.queue@.len() && (#[trigger] self.queue@[i]).path@.len() >= 2 ==> {
                ||| self.expanded@.contains(self.queue@[i].path@.drop_first())
                ||| (self.queue@[i].path@.drop_first() == it_path && pfx.contains(
                    self.queue@[i].path@[0] as int,
                ))
            }
    }

    /// Prime the enumerator: run best-path search, then seat the
    /// end-of-sentence stub as the only queued partial path.
    #[verifier::rlimit(100)]
    #[verifier::spinoff_prover]
    pub fn new(lat: &mut Lattice, model: &Model) -> (r: Result<NBest, MecabError>)
        requires
            old(lat).wf(),
            old(lat).is_built(),
        ensures
            final(lat).sen() == old(lat).sen(),
            final(lat).bnd() == old(lat).bnd(),
            final(lat).fc() == old(lat).fc(),
            final(lat).req() == old(lat).req(),
            final(lat).is_built() && final(lat).wf(),
            final(lat).graph() == old(lat).graph(),
            final(lat).err() == (match r {
                Result::Ok(_) => Option::<MecabError>::None,
                Result::Err(e) => Option::Some(e),
            }),
            match r {
                Result::Ok(nb) => {
                    &&& nb.inv()
                    &&& nb.tails_ok()
                    &&& nb.graph() == old(lat).graph()
                    &&& nb.model() == model@
                    &&& nb.emitted() == Seq::<Seq<usize>>::empty()
                    &&& alpha(model@, old(lat).graph(), old(lat).graph().eos) == Option::Some(
                        nb.z(),
                    )
                },
                Result::Err(e) => match e {
                    MecabError::DictionaryUnavailable => !model@.loaded,
                    MecabError::InvalidCategoryId { right_id, left_id } => {
                        &&& model@.loaded
                        &&& !ids_in_model(old(lat).graph().nodes, model@)
                        &&& exists|id: int|
                            valid_id(old(lat).graph(), id) && (#[trigger] old(lat).graph().nodes[
                                id
                            ]).rcattr == right_id && old(lat).graph().nodes[id].lcattr == left_id
                                && !(old(lat).graph().nodes[id].lcattr < model@.lsize && old(
                                lat,
                            ).graph().nodes[id].rcattr < model@.rsize)
                    },
                    MecabError::Unconnected => {
                        &&& model@.loaded
                        &&& ids_in_model(old(lat).graph().nodes, model@)
                        &&& crate::search::best_total(model@, old(lat).graph()) is None
                    },
                    _ => false,
                },
            },
    {
        let ghost g = lat.graph();
        let ghost m = model@;
        proof {
            lat.lemma_graph_wf();
        }
        if !model.is_available() {
            let e = MecabError::DictionaryUnavailable;
            lat.note_error(Option::Some(e));
            return Result::Err(e);
        }
        match check_ids(lat, model) {
            Result::Err(e) => {
                lat.note_error(Option::Some(e));
                return Result::Err(e);
            },
            Result::Ok(()) => {},
        }
        let (cost, reach, prev) = forward_pass(lat, model);
        let eos = lat.eos_node();
        proof {
            assert(fw_node_ok(m, g, cost@, reach@, prev@, g.eos));
        }
        if !reach[eos] {
            let e = MecabError::Unconnected;
            lat.note_error(Option::Some(e));
            return Result::Err(e);
        }
        lat.note_error(Option::None);
        let total = cost[eos];
        let mut path: Vec<usize> = Vec::new();
        path.push(eos);
        let stub = QItem { head: eos, path, g: 0, f: total };
        let mut queue: Vec<QItem> = Vec::new();
        queue.push(stub);
        let nb = NBest {
            queue,
            cost,
            reach,
            prev,
            total,
            gv: Ghost(g),
            mv: Ghost(m),
            expanded: Ghost(Set::empty()),
            emitted_g: Ghost(Seq::empty()),
            emitted_f: Ghost(Seq::empty()),
        };
        proof {
            reveal(item_ok);
            reveal(suffix_chain);
            reveal(chain_cost);
            let it = nb.queue@[0];
            assert(it.path@ =~= seq![eos]);
            assert(suffix_chain(g, it.path@));
            assert(chain_cost(m, g, it.path@) == 0);
            assert(cost_rank(g, g.eos) == 2 * g.len + 2);
            assert(item_ok(m, g, it));
            assert(it.f as int == nb.total as int);
            assert forall|p: Seq<usize>|
                #[trigger] complete_chain(g, p) && !nb.emitted_g@.contains(p) implies exists|i: int|
                0 <= i < nb.queue@.len() && chain_suffix(p, (#[trigger] nb.queue@[i]).path@) by {
                assert(p.subrange(p.len() - 1, p.len() as int) =~= seq![p.last()]);
                assert(p.last() == eos);
                assert(chain_suffix(p, nb.queue@[0].path@));
            }
            assert(nb.inv());
            assert(nb.tails_ok());
        }
        Result::Ok(nb)
    }
}

/// Copy a list of node ids.
fn copy_ids(v: &Vec<usize>) -> (r: Vec<usize>)
    ensures
        r@ == v@,
{
    let mut r: Vec<usize> = Vec::new();
    let mut i: usize = 0;
    while i < v.len()
        invariant
            0 <= i <= v@.len(),
            r@ == v@.subrange(0, i as int),
        decreases v@.len() - i,
    {
        r.push(v[i]);
        proof {
            assert(r@ =~= v@.subrange(0, i + 1));
        }
        i += 1;
    }
    proof {
        assert(v@.subrange(0, v@.len() as int) =~= v@);
    }
    r
}

impl NBest {
    /// The index of the first queued item with minimal `f`.
    fn min_index(&self) -> (mi: usize)
        requires
            self.queue@.len() > 0,
        ensures
            0 <= mi < self.queue@.len(),
            forall|j: int|
                0 <= j < self.queue@.len() ==> self.queue@[mi as int].f <= (
                #[trigger] self.queue@[j]).f,
    {
        let mut mi: usize = 0;
        let mut i: usize = 1;
        while i < self.queue.len()
            invariant
                0 <= mi < i <= self.queue@.len(),
                forall|j: int|
                    0 <= j < i ==> self.queue@[mi as int].f <= (#[trigger] self.queue@[j]).f,
            decreases self.queue@.len() - i,
        {
            if self.queue[i].f < self.queue[mi].f {
                mi = i;
            }
            i += 1;
        }
        mi
    }


    /// Append the one-step extension of `it` through predecessor `pr`.
    #[verifier::loop_isolation(false)]
    #[verifier::rlimit(100)]
    #[verifier::spinoff_prover]
    fn push_child(&mut self, it: &QItem, pr: usize, jj: Ghost<int>, lat: &Lattice, model: &Model)
        requires
            old(self).inv_base(),
            lat.wf(),
            lat.is_built(),
            lat.graph() == old(self).gv@,
            model@ == old(self).mv@,
            item_ok(old(self).mv@, old(self).gv@, *it),
            it.head as int != old(self).gv@.bos,
            0 <= jj@ < old(self).gv@.ends[old(self).gv@.nodes[it.head as int].begin].len(),
            old(self).gv@.ends[old(self).gv@.nodes[it.head as int].begin][jj@] == pr as int,
            alpha(old(self).mv@, old(self).gv@, pr as int) is Some,
            !old(self).expanded@.contains(it.path@),
            it.f as int >= old(self).last_f(),
            old(self).emitted_g@.len() == 0 ==> it.f as int == old(self).total as int,
            old(self).tails_mid(
                it.path@,
                old(self).gv@.ends[old(self).gv@.nodes[it.head as int].begin].subrange(0, jj@),
            ),
        ensures
            final(self).inv_base(),
            final(self).gv@ == old(self).gv@,
            final(self).mv@ == old(self).mv@,
            final(self).total == old(self).total,
            final(self).cost@ == old(self).cost@,
            final(self).reach@ == old(self).reach@,
            final(self).prev@ == old(self).prev@,
            final(self).emitted_g@ == old(self).emitted_g@,
            final(self).emitted_f@ == old(self).emitted_f@,
            final(self).expanded@ == old(self).expanded@,
            final(self).queue@ == old(self).queue@.push(final(self).queue@.last()),
            final(self).queue@.last().path@.len() == it.path@.len() + 1,
            final(self).queue@.last().path@.drop_first() == it.path@,
            final(self).queue@.last().path@[0] == pr,
            final(self).queue@.last().f as int >= it.f as int,
            (old(self).emitted_g@.len() == 0 && alpha(old(self).mv@, old(self).gv@, pr as int)
                == Option::Some(
                best_pred(old(self).mv@, old(self).gv@, it.head as int, 0).unwrap() - edge_cost(
                    old(self).mv@,
                    old(self).gv@,
                    pr as int,
                    it.head as int,
                ),
            )) ==> final(self).queue@.last().f as int == old(self).total as int,
    {
        let ghost m = self.mv@;
        let ghost g = self.gv@;
        let ghost it_path = it.path@;
        proof {
            lat.lemma_graph_wf();
            lemma_item_facts(m, g, *it);
        }
        let bos = lat.bos_node();
        let eos = lat.eos_node();
        let hd = it.head;
        let p = lat.node_at(hd).begin;
        let wc = lat.node_at(hd).wcost;
        proof {
            assert(g.ends[p as int][jj@] == pr as int);
            assert(valid_id(g, pr as int) && pr as int != g.eos && node_end(g, pr as int) == p);
            assert(fw_node_ok(m, g, self.cost@, self.reach@, self.prev@, pr as int));
        }
        let ec: i64 = if pr == bos || hd == eos {
            0
        } else {
            match model.transition_cost(lat.node_at(pr).rcattr, lat.node_at(hd).lcattr) {
                Result::Ok(c) => c as i64,
                Result::Err(_) => {
                    proof {
                        assert(false);
                    }
                    0
                },
            }
        };
        proof {
            assert(ec as int == edge_cost(m, g, pr as int, hd as int));
            lemma_alpha_bounds(m, g, pr as int);
            assert(it_path.len() <= 2 * g.len + 3);
            assert(alpha_mag(g, pr as int) <= 0x10000 * (2 * g.len + 3));
        }
        let cg = it.g + ec + (wc as i64);
        let prc = self.cost[pr];
        proof {
            assert(alpha(m, g, pr as int) == Option::Some(prc as int));
        }
        let cf = prc + cg;
        let mut np = copy_ids(&it.path);
        np.insert(0, pr);
        proof {
            assert(np@ =~= seq![pr].add(it_path));
        }
        let child = QItem { head: pr, path: np, g: cg, f: cf };
        proof {
            lemma_child_ok(m, g, *it, child);
        }
        let ghost pre = *self;
        proof {
            let cp = child.path@;
            assert(cp.drop_first() =~= it_path);
            assert forall|i: int|
                0 <= i < pre.queue@.len() implies (#[trigger] pre.queue@[i]).path@ != cp by {
                if pre.queue@[i].path@ == cp {
                    if self.expanded@.contains(cp.drop_first()) {
                        assert(self.expanded@.contains(it_path));
                    } else {
                        let el = g.ends[g.nodes[hd as int].begin];
                        let pfx = el.subrange(0, jj@);
                        assert(pfx.contains(cp[0] as int));
                        let k = choose|k: int| 0 <= k < pfx.len() && pfx[k] == cp[0] as int;
                        assert(el[k] == pr as int);
                        assert(el[jj@] == pr as int);
                        assert(id_list_sorted(el));
                        assert(el[k] < el[jj@]);
                    }
                }
            }
        }
        self.queue.push(child);
        proof {
            assert(self.queue@ =~= pre.queue@.push(child));
            lemma_push_keeps_inv(pre, *self, *it, child);
        }
    }

    /// Replace a popped partial path by its one-step extensions over
    /// every reachable predecessor of its first node.
    #[verifier::loop_isolation(false)]
    #[verifier::rlimit(100)]
    #[verifier::spinoff_prover]
    fn expand(&mut self, it: QItem, lat: &Lattice, model: &Model)
        requires
            old(self).inv_base(),
            lat.wf(),
            lat.is_built(),
            lat.graph() == old(self).graph(),
            model@ == old(self).model(),
            old(self).tails_ok(),
            item_ok(old(self).model(), old(self).graph(), it),
            it.head as int != old(self).graph().bos,
            !old(self).expanded@.contains(it.path@),
            it.path@.len() >= 2 ==> old(self).expanded@.contains(it.path@.drop_first()),
            forall|i: int|
                0 <= i < old(self).queue@.len() ==> (#[trigger] old(self).queue@[i]).path@
                    != it.path@,
            forall|i: int|
                0 <= i < old(self).queue@.len() ==> (#[trigger] old(self).queue@[i]).f as int
                    >= it.f as int,
            it.f as int >= old(self).last_f(),
            old(self).emitted().len() == 0 ==> it.f as int == old(self).z(),
            forall|ch: Seq<usize>|
                #[trigger] complete_chain(old(self).gv@, ch) && !old(self).emitted_g@.contains(ch)
                    ==> (exists|i: int|
                    0 <= i < old(self).queue@.len() && chain_suffix(
                        ch,
                        (#[trigger] old(self).queue@[i]).path@,
                    )) || chain_suffix(ch, it.path@),
        ensures
            final(self).inv(),
            final(self).tails_ok(),
            final(self).graph() == old(self).graph(),
            final(self).model() == old(self).model(),
            final(self).z() == old(self).z(),
            final(self).total == old(self).total,
            final(self).cost@ == old(self).cost@,
            final(self).reach@ == old(self).reach@,
            final(self).prev@ == old(self).prev@,
            final(self).emitted() == old(self).emitted(),
            final(self).emitted_costs() == old(self).emitted_costs(),
            qpot(
                old(self).gv@,
                old(self).gv@.nodes.len() as int,
                final(self).queue@,
            ) < qpot(old(self).gv@, old(self).gv@.nodes.len() as int, old(self).queue@) + qterm(
                old(self).gv@,
                old(self).gv@.nodes.len() as int,
                it,
            ),
    {
        let ghost m = self.mv@;
        let ghost g = self.gv@;
        proof {
            lat.lemma_graph_wf();
        }
        let nn = lat.node_count();
        let ghost q0 = qpot(g, nn as int, self.queue@);
        let ghost it_path = it.path@;
        proof {
            lemma_item_facts(m, g, it);
        }
        let hd = it.head;
        let p = lat.node_at(hd).begin;
        let elist = lat.end_nodes(p);
        let ghost child_term = pow(nn + 1, (2 * g.len + 2 - it_path.len()) as nat);
        proof {
            let e = (2 * g.len + 3 - it_path.len()) as nat;
            assert(e >= 1) by {
                assert(cost_rank(g, it.head as int) >= 1);
            }
            vstd::arithmetic::power::lemma_pow_adds(nn + 1, 1nat, (e - 1) as nat);
            vstd::arithmetic::power::lemma_pow1(nn + 1);
            assert(1nat + (e - 1) as nat == e);
            assert((e - 1) as nat == (2 * g.len + 2 - it_path.len()) as nat);
            assert(qterm(g, nn as int, it) == (nn + 1) * child_term);
            lemma_best_pred_props(m, g, hd as int, 0);
            lemma_sorted_len(g.ends[p as int], nn as int);
            lemma_pow_positive(nn + 1, (2 * g.len + 2 - it_path.len()) as nat);
        }
        proof {
            assert(self.tails_mid(it_path, g.ends[p as int].subrange(0, 0)));
            assert forall|ch: Seq<usize>|
                #[trigger] complete_chain(g, ch) && !self.emitted_g@.contains(ch) implies (exists|
                i: int,
            |
                0 <= i < self.queue@.len() && chain_suffix(ch, (#[trigger] self.queue@[i]).path@))
                || (chain_suffix(ch, it_path) && exists|k: int|
                0 <= k < g.ends[p as int].len() && g.ends[p as int][k] == ch[ch.len()
                    - it_path.len() - 1] as int) by {
                if !(exists|i: int|
                    0 <= i < self.queue@.len() && chain_suffix(
                        ch,
                        (#[trigger] self.queue@[i]).path@,
                    )) {
                    assert(chain_suffix(ch, it_path));
                    lemma_extend_witness(m, g, ch, it_path);
                    let q = ch[ch.len() - it_path.len() - 1];
                    let k0 = choose|k0: int|
                        0 <= k0 < g.ends[p as int].len() && g.ends[p as int][k0] == q as int;
                }
            }
        }
        let mut j: usize = 0;
        while j < elist.len()
            invariant
                0 <= j <= g.ends[p as int].len(),
                self.inv_base(),
                self.gv@ == g,
                self.mv@ == m,
                self.total == old(self).total,
                self.cost@ == old(self).cost@,
                self.reach@ == old(self).reach@,
                self.prev@ == old(self).prev@,
                self.emitted_g@ == old(self).emitted_g@,
                self.emitted_f@ == old(self).emitted_f@,
                self.expanded@ == old(self).expanded@,
                !self.expanded@.contains(it_path),
                it.f as int >= self.last_f(),
                self.tails_mid(it_path, g.ends[p as int].subrange(0, j as int)),
                item_ok(m, g, it),
                it.head == hd,
                it.path@ == it_path,
                hd as int != g.bos,
                p as int == g.nodes[hd as int].begin,
                forall|i: int|
                    0 <= i < self.queue@.len() ==> (#[trigger] self.queue@[i]).path@ != it_path,
                forall|i: int|
                    0 <= i < self.queue@.len() ==> (#[trigger] self.queue@[i]).f as int
                        >= it.f as int,
                qpot(g, nn as int, self.queue@) <= q0 + j * child_term,
                (self.emitted_g@.len() == 0 ==> it.f as int == self.total as int),
                forall|ch: Seq<usize>|
                    #[trigger] complete_chain(g, ch) && !self.emitted_g@.contains(ch) ==> (exists|
                        i: int,
                    |
                        0 <= i < self.queue@.len() && chain_suffix(
                            ch,
                            (#[trigger] self.queue@[i]).path@,
                        )) || (chain_suffix(ch, it_path) && exists|k: int|
                        j <= k < g.ends[p as int].len() && g.ends[p as int][k] == ch[ch.len()
                            - it_path.len() - 1] as int),
                (self.emitted_g@.len() == 0 ==> (exists|i: int|
                    0 <= i < self.queue@.len() && (#[trigger] self.queue@[i]).f as int
                        == self.total as int) || (exists|k: int|
                    j <= k < g.ends[p as int].len() && alpha(
                        m,
                        g,
                        #[trigger] g.ends[p as int][k],
                    ) == Option::Some(
                        best_pred(m, g, hd as int, 0).unwrap() - edge_cost(
                            m,
                            g,
                            g.ends[p as int][k],
                            hd as int,
                        ),
                    ))),
            decreases g.ends[p as int].len() - j,
        {
            let pr = elist[j];
            proof {
                assert(pr as int == g.ends[p as int][j as int]);
                assert(g.ends[p as int].contains(pr as int));
                assert(fw_node_ok(m, g, self.cost@, self.reach@, self.prev@, pr as int));
            }
            if self.reach[pr] {
                let ghost qpre = self.queue@;
                self.push_child(&it, pr, Ghost(j as int), lat, model);
                proof {
                    let child = self.queue@.last();
                    assert(self.queue@ == qpre.push(child));
                    lemma_qpot_push(g, nn as int, qpre, child);
                    assert(qterm(g, nn as int, child) == child_term);
                    assert((j + 1) * child_term == j * child_term + child_term) by (
                    nonlinear_arith);
                    assert(qpot(g, nn as int, self.queue@) <= q0 + (j + 1) * child_term);
                    let pfx2 = g.ends[p as int].subrange(0, j + 1);
                    assert(pfx2[j as int] == g.ends[p as int][j as int]);
                    assert(pfx2.contains(pr as int));
                    assert forall|i: int|
                        0 <= i < self.queue@.len() && (#[trigger] self.queue@[i]).path@.len()
                            >= 2 implies {
                        ||| self.expanded@.contains(self.queue@[i].path@.drop_first())
                        ||| (self.queue@[i].path@.drop_first() == it_path && pfx2.contains(
                            self.queue@[i].path@[0] as int,
                        ))
                    } by {
                        if i < qpre.len() {
                            assert(self.queue@[i] == qpre[i]);
                            let pfx = g.ends[p as int].subrange(0, j as int);
                            if !self.expanded@.contains(qpre[i].path@.drop_first())
                                && qpre[i].path@.len() >= 2 {
                                let w = choose|w: int|
                                    0 <= w < pfx.len() && pfx[w] == qpre[i].path@[0] as int;
                                assert(pfx2[w] == pfx[w]);
                                assert(pfx2.contains(qpre[i].path@[0] as int));
                            }
                        } else {
                            assert(self.queue@[i] == child);
                        }
                    }
                    assert(self.tails_mid(it_path, pfx2));
                    assert forall|i: int|
                        0 <= i < self.queue@.len() implies (#[trigger] self.queue@[i]).path@
                        != it_path by {
                        if i < qpre.len() {
                            assert(self.queue@[i] == qpre[i]);
                        } else {
                            assert(self.queue@[i] == child);
                            assert(child.path@.len() == it_path.len() + 1);
                        }
                    }
                    assert forall|i: int|
                        0 <= i < self.queue@.len() implies (#[trigger] self.queue@[i]).f as int
                        >= it.f as int by {
                        if i < qpre.len() {
                            assert(self.queue@[i] == qpre[i]);
                        } else {
                            assert(self.queue@[i] == child);
                        }
                    }
                    assert forall|ch: Seq<usize>|
                        #[trigger] complete_chain(g, ch) && !self.emitted_g@.contains(
                            ch,
                        ) implies (exists|i: int|
                        0 <= i < self.queue@.len() && chain_suffix(
                            ch,
                            (#[trigger] self.queue@[i]).path@,
                        )) || (chain_suffix(ch, it_path) && exists|k: int|
                        j + 1 <= k < g.ends[p as int].len() && g.ends[p as int][k] == ch[ch.len()
                            - it_path.len() - 1] as int) by {
                        if exists|i: int|
                            0 <= i < qpre.len() && chain_suffix(
                                ch,
                                (#[trigger] qpre[i]).path@,
                            ) {
                            let w = choose|w: int|
                                0 <= w < qpre.len() && chain_suffix(ch, (#[trigger] qpre[w]).path@);
                            assert(self.queue@[w] == qpre[w]);
                        } else if chain_suffix(ch, it_path) {
                            let k = choose|k: int|
                                j <= k < g.ends[p as int].len() && g.ends[p as int][k] == ch[
                                    ch.len() - it_path.len() - 1
                                ] as int;
                            if k == j {
                                lemma_extend_witness(m, g, ch, it_path);
                                let q = ch[ch.len() - it_path.len() - 1];
                                assert(q as int == pr as int);
                                assert(chain_suffix(ch, seq![q] + it_path));
                                assert(seq![q] + it_path =~= child.path@);
                                assert(chain_suffix(ch, self.queue@[self.queue@.len() - 1].path@));
                            }
                        }
                    }
                    if self.emitted_g@.len() == 0 {
                        if alpha(m, g, pr as int) == Option::Some(
                            best_pred(m, g, hd as int, 0).unwrap() - edge_cost(
                                m,
                                g,
                                pr as int,
                                hd as int,
                            ),
                        ) {
                            assert(self.queue@[self.queue@.len() - 1].f as int
                                == self.total as int);
                        }
                        if exists|i: int|
                            0 <= i < qpre.len() && (#[trigger] qpre[i]).f as int
                                == self.total as int {
                            let w = choose|w: int|
                                0 <= w < qpre.len() && (#[trigger] qpre[w]).f as int
                                    == self.total as int;
                            assert(self.queue@[w] == qpre[w]);
                        }
                    }
                }
            } else {
                proof {
                    if self.emitted_g@.len() == 0 {
                        assert(alpha(m, g, pr as int) is None);
                    }
                    lemma_pow_positive(nn + 1, (2 * g.len + 2 - it_path.len()) as nat);
                    assert(j * child_term <= (j + 1) * child_term) by (nonlinear_arith)
                        requires
                            child_term >= 0,
                            j >= 0,
                    ;
                    assert forall|ch: Seq<usize>|
                        #[trigger] complete_chain(g, ch) && !self.emitted_g@.contains(
                            ch,
                        ) implies (exists|i: int|
                        0 <= i < self.queue@.len() && chain_suffix(
                            ch,
                            (#[trigger] self.queue@[i]).path@,
                        )) || (chain_suffix(ch, it_path) && exists|k: int|
                        j + 1 <= k < g.ends[p as int].len() && g.ends[p as int][k] == ch[ch.len()
                            - it_path.len() - 1] as int) by {
                        if !(exists|i: int|
                            0 <= i < self.queue@.len() && chain_suffix(
                                ch,
                                (#[trigger] self.queue@[i]).path@,
                            )) && chain_suffix(ch, it_path) {
                            let k = choose|k: int|
                                j <= k < g.ends[p as int].len() && g.ends[p as int][k] == ch[
                                    ch.len() - it_path.len() - 1
                                ] as int;
                            if k == j {
                                lemma_extend_witness(m, g, ch, it_path);
                                assert(alpha(m, g, pr as int) is Some);
                            }
                        }
                    }
                    let pfx2 = g.ends[p as int].subrange(0, j + 1);
                    assert forall|i: int|
                        0 <= i < self.queue@.len() && (#[trigger] self.queue@[i]).path@.len()
                            >= 2 implies {
                        ||| self.expanded@.contains(self.queue@[i].path@.drop_first())
                        ||| (self.queue@[i].path@.drop_first() == it_path && pfx2.contains(
                            self.queue@[i].path@[0] as int,
                        ))
                    } by {
                        let pfx = g.ends[p as int].subrange(0, j as int);
                        if !self.expanded@.contains(self.queue@[i].path@.drop_first())
                            && self.queue@[i].path@.len() >= 2 {
                            let w = choose|w: int|
                                0 <= w < pfx.len() && pfx[w] == self.queue@[i].path@[0] as int;
                            assert(pfx2[w] == pfx[w]);
                            assert(pfx2.contains(self.queue@[i].path@[0] as int));
                        }
                    }
                    assert(self.tails_mid(it_path, pfx2));
                }
            }
            j += 1;
        }
        proof {
            assert(qpot(g, nn as int, self.queue@) <= q0 + g.ends[p as int].len() * child_term);
            assert(g.ends[p as int].len() * child_term < (nn + 1) * child_term) by (
            nonlinear_arith)
                requires
                    g.ends[p as int].len() <= nn,
                    child_term > 0,
            ;
            assert(qpot(g, nn as int, self.queue@) < q0 + qterm(g, nn as int, it));
            let ghost pre2 = *self;
            self.expanded@ = self.expanded@.insert(it_path);
            lemma_mark_expanded(pre2, *self, it);
            assert forall|i: int|
                0 <= i < self.queue@.len() && (#[trigger] self.queue@[i]).path@.len()
                    >= 2 implies self.expanded@.contains(self.queue@[i].path@.drop_first()) by {
                if !pre2.expanded@.contains(self.queue@[i].path@.drop_first()) {
                    assert(self.queue@[i].path@.drop_first() == it_path);
                }
            }
            assert(self.tails_ok());
            assert forall|ch: Seq<usize>|
                #[trigger] complete_chain(g, ch) && !self.emitted_g@.contains(ch) implies exists|
                i: int,
            |
                0 <= i < self.queue@.len() && chain_suffix(ch, (#[trigger] self.queue@[i]).path@)
                 by {
                if chain_suffix(ch, it_path) && !(exists|i: int|
                    0 <= i < self.queue@.len() && chain_suffix(
                        ch,
                        (#[trigger] self.queue@[i]).path@,
                    )) {
                    let k = choose|k: int|
                        j <= k < g.ends[p as int].len() && g.ends[p as int][k] == ch[ch.len()
                            - it_path.len() - 1] as int;
                }
            }
            assert(self.inv());
        }
    }

    /// Advance the queue exactly enough to produce the next distinct
    /// complete path, cheapest first; `None` signals exhaustion.
    #[verifier::loop_isolation(false)]
    #[verifier::rlimit(100)]
    #[verifier::spinoff_prover]
    pub fn next_path(&mut self, lat: &Lattice, model: &Model) -> (r: Option<Vec<usize>>)
        requires
            old(self).inv(),
            old(self).tails_ok(),
            lat.wf(),
            lat.is_built(),
            lat.graph() == old(self).graph(),
            model@ == old(self).model(),
        ensures
            final(self).inv(),
            final(self).tails_ok(),
            final(self).graph() == old(self).graph(),
            final(self).model() == old(self).model(),
            final(self).z() == old(self).z(),
            ({
                let m = old(self).model();
                let g = old(self).graph();
                match r {
                    Option::Some(p) => {
                        &&& complete_chain(g, p@)
                        &&& final(self).emitted() == old(self).emitted().push(p@)
                        &&& final(self).emitted_costs() == old(self).emitted_costs().push(
                            chain_cost(m, g, p@),
                        )
                        &&& forall|k: int|
                            0 <= k < old(self).emitted().len() ==> #[trigger] old(self).emitted()[k]
                                != p@
                        &&& forall|k: int|
                            0 <= k < old(self).emitted_costs().len() ==> #[trigger] old(
                                self,
                            ).emitted_costs()[k] <= chain_cost(m, g, p@)
                        &&& (old(self).emitted().len() == 0 ==> chain_cost(m, g, p@) == old(
                            self,
                        ).z())
                    },
                    Option::None => {
                        &&& final(self).emitted() == old(self).emitted()
                        &&& final(self).emitted_costs() == old(self).emitted_costs()
                        &&& forall|ch: Seq<usize>|
                            #[trigger] complete_chain(g, ch) ==> final(self).emitted().contains(ch)
                    },
                }
            }),
    {
        let ghost m = self.mv@;
        let ghost g = self.gv@;
        proof {
            lat.lemma_graph_wf();
        }
        let nn = lat.node_count();
        let bos = lat.bos_node();
        let eos = lat.eos_node();
        loop
            invariant
                self.inv(),
                self.tails_ok(),
                self.gv@ == g,
                self.mv@ == m,
                self.total == old(self).total,
                self.cost@ == old(self).cost@,
                self.reach@ == old(self).reach@,
                self.prev@ == old(self).prev@,
                self.emitted_g@ == old(self).emitted_g@,
                self.emitted_f@ == old(self).emitted_f@,
                nn as int == g.nodes.len(),
            decreases qpot(g, nn as int, self.queue@),
        {
            proof {
                lemma_qpot_nonneg(g, nn as int, self.queue@);
            }
            if self.queue.len() == 0 {
                proof {
                    assert forall|ch: Seq<usize>|
                        #[trigger] complete_chain(g, ch) implies self.emitted_g@.contains(ch) by {
                        if !self.emitted_g@.contains(ch) {
                            let i = choose|i: int|
                                0 <= i < self.queue@.len() && chain_suffix(
                                    ch,
                                    self.queue@[i].path@,
                                );
                        }
                    }
                }
                return Option::None;
            }
            let mi = self.min_index();
            let ghost q_before = self.queue@;
            let ghost pre_rm = *self;
            let it = self.queue.remove(mi);
            proof {
                assert(self.queue@ =~= q_before.remove(mi as int));
                lemma_remove_keeps_base(pre_rm, *self, mi as int);
                lemma_qpot_remove(g, nn as int, q_before, mi as int);
                assert(item_ok(m, g, it));
                assert forall|j: int| 0 <= j < self.queue@.len() implies (
                #[trigger] self.queue@[j]).f >= it.f by {
                    if j < mi {
                        assert(self.queue@[j] == q_before[j]);
                    } else {
                        assert(self.queue@[j] == q_before[j + 1]);
                    }
                }
                assert(it.f as int >= self.last_f());
                assert(!self.expanded@.contains(it.path@));
                if it.path@.len() >= 2 {
                    assert(self.expanded@.contains(it.path@.drop_first()));
                }
                assert forall|j2: int|
                    0 <= j2 < self.queue@.len() implies (#[trigger] self.queue@[j2]).path@
                    != it.path@ by {
                    if j2 < mi {
                        assert(self.queue@[j2] == q_before[j2]);
                    } else {
                        assert(self.queue@[j2] == q_before[j2 + 1]);
                    }
                }
                assert forall|k: int|
                    0 <= k < self.emitted_g@.len() implies #[trigger] self.emitted_g@[k]
                    != it.path@ by {
                    assert(q_before[mi as int].path@ != self.emitted_g@[k]);
                }
                assert forall|ch: Seq<usize>|
                    #[trigger] complete_chain(g, ch) && !self.emitted_g@.contains(ch) implies (
                exists|i: int|
                    0 <= i < self.queue@.len() && chain_suffix(
                        ch,
                        (#[trigger] self.queue@[i]).path@,
                    )) || chain_suffix(ch, it.path@) by {
                    let w = choose|w: int|
                        0 <= w < q_before.len() && chain_suffix(
                            ch,
                            (#[trigger] q_before[w]).path@,
                        );
                    if w < mi {
                        assert(self.queue@[w] == q_before[w]);
                    } else if w > mi {
                        assert(self.queue@[w - 1] == q_before[w]);
                    } else {
                        assert(chain_suffix(ch, it.path@));
                    }
                }
                assert forall|j2: int|
                    0 <= j2 < self.queue@.len() && (#[trigger] self.queue@[j2]).path@.len()
                        >= 2 implies self.expanded@.contains(
                    self.queue@[j2].path@.drop_first(),
                ) by {
                    if j2 < mi {
                        assert(self.queue@[j2] == q_before[j2]);
                    } else {
                        assert(self.queue@[j2] == q_before[j2 + 1]);
                    }
                }
                assert(self.tails_ok());
                if self.emitted_g@.len() == 0 {
                    let w = choose|w: int|
                        0 <= w < q_before.len() && (#[trigger] q_before[w]).f as int
                            == self.total as int;
                    assert(it.f as int <= q_before[w].f as int);
                    assert(it.f as int == self.total as int);
                }
            }
            if it.head == bos {
                proof {
                    lemma_emit_facts(m, g, it);
                    let ghost pre = *self;
                    self.emitted_g@ = self.emitted_g@.push(it.path@);
                    self.emitted_f@ = self.emitted_f@.push(it.f as int);
                    lemma_emit_keeps_inv(pre, *self, it);
                }
                let QItem { head: _, path, g: _, f: _ } = it;
                return Option::Some(path);
            }
            let ghost q_after = self.queue@;
            proof {
                assert(it == q_before[mi as int]);
                assert(qpot(g, nn as int, q_after) == qpot(g, nn as int, q_before) - qterm(
                    g,
                    nn as int,
                    it,
                ));
            }
            self.expand(it, lat, model);
            proof {
                lemma_qpot_nonneg(g, nn as int, self.queue@);
                assert(qpot(g, nn as int, self.queue@) < qpot(g, nn as int, q_after) + qterm(
                    g,
                    nn as int,
                    it,
                ));
                assert(qpot(g, nn as int, self.queue@) < qpot(g, nn as int, q_before));
            }
        }
    }
}

} // verus!
