//! Cost-based path search over a built lattice: the forward and backward
//! best-cost recurrences, the single best path, and what they promise.

use vstd::prelude::*;

use crate::MecabError;
use crate::dict::Model;
use crate::dict::ModelView;
use crate::dict::spec_conn;
use crate::lattice::GraphView;
use crate::lattice::Lattice;
use crate::lattice::ids_in_model;
use crate::lattice::node_end;
use crate::lattice::valid_id;
use crate::lattice::wf_graph;

verus! {

/// The transition cost along the edge from node `a` to node `b`. The two
/// synthetic sentence boundaries carry no transition cost; between real
/// nodes the connection-cost table decides.
pub open spec fn edge_cost(m: ModelView, g: GraphView, a: int, b: int) -> int {
    if a == g.bos || b == g.eos {
        0
    } else {
        spec_conn(m, g.nodes[a].rcattr, g.nodes[b].lcattr)
    }
}

/// A node's own word cost.
pub open spec fn word_cost(g: GraphView, n: int) -> int {
    g.nodes[n].wcost as int
}

/// Rank of a node in the topological order used for termination: spans
/// are ordered by begin position, begin-of-sentence before everything,
/// end-of-sentence after everything.
pub open spec fn cost_rank(g: GraphView, n: int) -> int {
    2 * g.nodes[n].begin + (if n == g.bos {
        0int
    } else if n == g.eos {
        2int
    } else {
        1int
    })
}

/// The smaller of two optional costs, where absence means unreachable.
pub open spec fn opt_min(a: Option<int>, b: Option<int>) -> Option<int> {
    match (a, b) {
        (Option::Some(x), Option::Some(y)) => Option::Some(
            if x <= y {
                x
            } else {
                y
            },
        ),
        (Option::Some(x), Option::None) => Option::Some(x),
        (Option::None, y) => y,
    }
}

/// The cheapest cost of reaching node `n` from begin-of-sentence,
/// including `n`'s own word cost; absent when no path reaches `n`.
pub open spec fn alpha(m: ModelView, g: GraphView, n: int) -> Option<int>
    decreases g.nodes[n].begin, (if n == g.bos { 0int } else { 1int }), g.ends[g.nodes[n].begin].len() + 1,
        when wf_graph(g) && valid_id(g, n)
{
    if !wf_graph(g) || !valid_id(g, n) {
        Option::None
    } else if n == g.bos {
        Option::Some(0)
    } else {
        match best_pred(m, g, n, 0) {
            Option::None => Option::None,
            Option::Some(c) => Option::Some(c + word_cost(g, n)),
        }
    }
}

/// The cheapest `alpha(pred) + edge` over the predecessors of `n` listed
/// at index `i` or later of the end-list at `n`'s begin position.
pub open spec fn best_pred(m: ModelView, g: GraphView, n: int, i: int) -> Option<int>
    decreases g.nodes[n].begin, (if n == g.bos { 0int } else { 1int }), g.ends[g.nodes[n].begin].len() - i,
        when wf_graph(g) && valid_id(g, n)
{
    if !wf_graph(g) || !valid_id(g, n) || n == g.bos || i < 0 || i >= g.ends[g.nodes[
        n
    ].begin].len() {
        Option::None
    } else {
        let pr = g.ends[g.nodes[n].begin][i];
        let cur = match alpha(m, g, pr) {
            Option::None => Option::None,
            Option::Some(a) => Option::Some(a + edge_cost(m, g, pr, n)),
        };
        opt_min(cur, best_pred(m, g, n, i + 1))
    }
}

/// How far a node's forward cost can stray from zero: one table entry
/// and one word cost per step of the topological order.
pub open spec fn alpha_mag(g: GraphView, n: int) -> int {
    0x10000 * (cost_rank(g, n) + 1)
}

/// Forward costs are bounded by the topological rank, so 64-bit
/// arithmetic never overflows on inputs the lattice accepts.
pub proof fn lemma_alpha_bounds(m: ModelView, g: GraphView, n: int)
    requires
        wf_graph(g),
        valid_id(g, n),
    ensures
        alpha(m, g, n) matches Option::Some(c) ==> -alpha_mag(g, n) <= c <= alpha_mag(g, n),
    decreases g.nodes[n].begin, (if n == g.bos { 0int } else { 1int }), g.ends[g.nodes[n].begin].len() + 1,
{
    if n != g.bos {
        lemma_best_pred_bounds(m, g, n, 0);
    }
}

pub proof fn lemma_best_pred_bounds(m: ModelView, g: GraphView, n: int, i: int)
    requires
        wf_graph(g),
        valid_id(g, n),
    ensures
        best_pred(m, g, n, i) matches Option::Some(c) ==> -(0x10000 * cost_rank(g, n) + 0x8000)
            <= c <= 0x10000 * cost_rank(g, n) + 0x8000,
    decreases g.nodes[n].begin, (if n == g.bos { 0int } else { 1int }), g.ends[g.nodes[n].begin].len() - i,
{
    if !(n == g.bos || i < 0 || i >= g.ends[g.nodes[n].begin].len()) {
        let pr = g.ends[g.nodes[n].begin][i];
        lemma_alpha_bounds(m, g, pr);
        lemma_best_pred_bounds(m, g, n, i + 1);
        assert(cost_rank(g, pr) + 1 <= cost_rank(g, n));
        assert(0x10000 * (cost_rank(g, pr) + 1) <= 0x10000 * cost_rank(g, n)) by (nonlinear_arith)
            requires
                cost_rank(g, pr) + 1 <= cost_rank(g, n),
        ;
    }
}

/// The backward analogue of [`lemma_alpha_bounds`].
pub open spec fn beta_mag(g: GraphView, len: int, n: int) -> int {
    0x10000 * (2 * len + 3 - cost_rank(g, n))
}

pub proof fn lemma_beta_bounds(m: ModelView, g: GraphView, n: int)
    requires
        wf_graph(g),
        valid_id(g, n),
    ensures
        beta(m, g, n) matches Option::Some(c) ==> -beta_mag(g, g.len, n) <= c <= beta_mag(
            g,
            g.len,
            n,
        ),
    decreases g.len - node_end(g, n), (if n == g.eos { 0int } else { 1int }), g.begins[node_end(g, n)].len() + 1,
{
    if n != g.eos {
        lemma_best_succ_bounds(m, g, n, 0);
    }
}

pub proof fn lemma_best_succ_bounds(m: ModelView, g: GraphView, n: int, i: int)
    requires
        wf_graph(g),
        valid_id(g, n),
    ensures
        best_succ(m, g, n, i) matches Option::Some(c) ==> -beta_mag(g, g.len, n) <= c <= beta_mag(
            g,
            g.len,
            n,
        ),
    decreases g.len - node_end(g, n), (if n == g.eos { 0int } else { 1int }), g.begins[node_end(g, n)].len() - i,
{
    if !(n == g.eos || i < 0 || i >= g.begins[node_end(g, n)].len()) {
        let s = g.begins[node_end(g, n)][i];
        lemma_beta_bounds(m, g, s);
        lemma_best_succ_bounds(m, g, n, i + 1);
        assert(cost_rank(g, n) + 1 <= cost_rank(g, s));
        assert(beta_mag(g, g.len, s) + 0x10000 <= beta_mag(g, g.len, n)) by (nonlinear_arith)
            requires
                cost_rank(g, n) + 1 <= cost_rank(g, s),
        ;
    }
}

/// The minimum over the remaining predecessors is achieved by a listed
/// reachable predecessor and undercuts every one of them.
pub proof fn lemma_best_pred_props(m: ModelView, g: GraphView, n: int, i: int)
    requires
        wf_graph(g),
        valid_id(g, n),
        n != g.bos,
        0 <= i,
    ensures
        best_pred(m, g, n, i) matches Option::Some(c) ==> exists|k: int|
            i <= k < g.ends[g.nodes[n].begin].len() && alpha(
                m,
                g,
                #[trigger] g.ends[g.nodes[n].begin][k],
            ) == Option::Some(c - edge_cost(m, g, g.ends[g.nodes[n].begin][k], n)),
        forall|k: int|
            i <= k < g.ends[g.nodes[n].begin].len() && alpha(
                m,
                g,
                #[trigger] g.ends[g.nodes[n].begin][k],
            ) is Some ==> {
                &&& best_pred(m, g, n, i) is Some
                &&& best_pred(m, g, n, i).unwrap() <= alpha(
                    m,
                    g,
                    g.ends[g.nodes[n].begin][k],
                ).unwrap() + edge_cost(m, g, g.ends[g.nodes[n].begin][k], n)
            },
    decreases g.ends[g.nodes[n].begin].len() - i,
{
    if i < g.ends[g.nodes[n].begin].len() {
        lemma_best_pred_props(m, g, n, i + 1);
    }
}

/// The cheapest cost from node `n` to end-of-sentence, excluding `n`'s
/// own word cost; absent when end-of-sentence is unreachable from `n`.
pub open spec fn beta(m: ModelView, g: GraphView, n: int) -> Option<int>
    decreases g.len - node_end(g, n), (if n == g.eos { 0int } else { 1int }), g.begins[node_end(g, n)].len() + 1,
        when wf_graph(g) && valid_id(g, n)
{
    if !wf_graph(g) || !valid_id(g, n) {
        Option::None
    } else if n == g.eos {
        Option::Some(0)
    } else {
        best_succ(m, g, n, 0)
    }
}

/// The cheapest `edge + word_cost(succ) + beta(succ)` over the
/// successors of `n` listed at index `i` or later of the begin-list at
/// `n`'s end position.
pub open spec fn best_succ(m: ModelView, g: GraphView, n: int, i: int) -> Option<int>
    decreases g.len - node_end(g, n), (if n == g.eos { 0int } else { 1int }), g.begins[node_end(g, n)].len() - i,
        when wf_graph(g) && valid_id(g, n)
{
    if !wf_graph(g) || !valid_id(g, n) || n == g.eos || i < 0 || i >= g.begins[node_end(
        g,
        n,
    )].len() {
        Option::None
    } else {
        let s = g.begins[node_end(g, n)][i];
        let cur = match beta(m, g, s) {
            Option::None => Option::None,
            Option::Some(b) => Option::Some(edge_cost(m, g, n, s) + word_cost(g, s) + b),
        };
        opt_min(cur, best_succ(m, g, n, i + 1))
    }
}

/// What the forward pass guarantees per node: `reach` tells whether a
/// path arrives, `cost` is then the cheapest arrival cost, and `prev` a
/// listed predecessor that achieves it.
pub open spec fn forward_ok(
    m: ModelView,
    g: GraphView,
    cost: Seq<i64>,
    reach: Seq<bool>,
    prev: Seq<usize>,
) -> bool {
    &&& cost.len() == g.nodes.len()
    &&& reach.len() == g.nodes.len()
    &&& prev.len() == g.nodes.len()
    &&& forall|id: int| 0 <= id < g.nodes.len() ==> fw_node_ok(m, g, cost, reach, prev, id)
}

/// What the backward pass guarantees per node.
pub open spec fn backward_ok(
    m: ModelView,
    g: GraphView,
    bcost: Seq<i64>,
    breach: Seq<bool>,
) -> bool {
    &&& bcost.len() == g.nodes.len()
    &&& breach.len() == g.nodes.len()
    &&& forall|id: int| 0 <= id < g.nodes.len() ==> bw_node_ok(m, g, bcost, breach, id)
}

/// A chain of nodes from begin-of-sentence to end-of-sentence in which
/// every step is a listed edge that realizes the forward recurrence, so
/// the chain's cumulative cost equals `alpha` at each of its nodes.
pub open spec fn tight_path(m: ModelView, g: GraphView, path: Seq<usize>) -> bool {
    &&& path.len() >= 2
    &&& path[0] as int == g.bos
    &&& path.last() as int == g.eos
    &&& forall|i: int| 0 <= i < path.len() ==> valid_id(g, #[trigger] path[i] as int)
    &&& forall|i: int|
        0 <= i < path.len() - 1 ==> g.ends[g.nodes[path[i + 1] as int].begin].contains(
            #[trigger] path[i] as int,
        )
    &&& forall|i: int|
        0 <= i < path.len() - 1 ==> alpha(m, g, #[trigger] path[i + 1] as int) is Some && alpha(
            m,
            g,
            path[i + 1] as int,
        ) == Option::Some(
            alpha(m, g, path[i] as int).unwrap() + edge_cost(m, g, path[i] as int, path[
                i + 1
            ] as int) + word_cost(g, path[i + 1] as int),
        )
    &&& alpha(m, g, path[0] as int) == Option::Some(0int)
}

fn filled_i64(n: usize, v: i64) -> (r: Vec<i64>)
    ensures
        r@.len() == n,
        forall|i: int| 0 <= i < n ==> r@[i] == v,
{
    let mut r: Vec<i64> = Vec::new();
    let mut i: usize = 0;
    while i < n
        invariant
            0 <= i <= n,
            r@.len() == i,
            forall|j: int| 0 <= j < i ==> r@[j] == v,
        decreases n - i,
    {
        r.push(v);
        i += 1;
    }
    r
}

fn filled_bool(n: usize, v: bool) -> (r: Vec<bool>)
    ensures
        r@.len() == n,
        forall|i: int| 0 <= i < n ==> r@[i] == v,
{
    let mut r: Vec<bool> = Vec::new();
    let mut i: usize = 0;
    while i < n
        invariant
            0 <= i <= n,
            r@.len() == i,
            forall|j: int| 0 <= j < i ==> r@[j] == v,
        decreases n - i,
    {
        r.push(v);
        i += 1;
    }
    r
}

fn filled_usize(n: usize, v: usize) -> (r: Vec<usize>)
    ensures
        r@.len() == n,
        forall|i: int| 0 <= i < n ==> r@[i] == v,
{
    let mut r: Vec<usize> = Vec::new();
    let mut i: usize = 0;
    while i < n
        invariant
            0 <= i <= n,
            r@.len() == i,
            forall|j: int| 0 <= j < i ==> r@[j] == v,
        decreases n - i,
    {
        r.push(v);
        i += 1;
    }
    r
}

/// What the forward pass has established for one node.
pub open spec fn fw_node_ok(
    m: ModelView,
    g: GraphView,
    cost: Seq<i64>,
    reach: Seq<bool>,
    prev: Seq<usize>,
    id: int,
) -> bool {
    &&& reach[id] == (alpha(m, g, id) is Some)
    &&& (reach[id] ==> alpha(m, g, id) == Option::Some(cost[id] as int))
    &&& (reach[id] && id != g.bos ==> {
        &&& g.ends[g.nodes[id].begin].contains(prev[id] as int)
        &&& alpha(m, g, prev[id] as int) is Some
        &&& alpha(m, g, id) == Option::Some(
            alpha(m, g, prev[id] as int).unwrap() + edge_cost(m, g, prev[id] as int, id)
                + word_cost(g, id),
        )
    })
}

/// Which nodes the forward scan has handled once it stands at position
/// `p`, entry `k` of the begin-list there.
pub open spec fn fw_processed(g: GraphView, p: int, k: int, id: int) -> bool {
    ||| id == g.bos
    ||| (valid_id(g, id) && g.nodes[id].begin < p)
    ||| (valid_id(g, id) && id != g.bos && g.nodes[id].begin == p && exists|k2: int|
        0 <= k2 < k && g.begins[p][k2] == id)
}

/// The forward best-cost sweep: positions in ascending order, so every
/// predecessor is settled before its successors.
#[verifier::loop_isolation(false)]
pub(crate) fn forward_pass(lat: &Lattice, model: &Model) -> (r: (Vec<i64>, Vec<bool>, Vec<usize>))
    requires
        lat.wf(),
        lat.is_built(),
        model@.loaded,
        crate::dict::model_data_ok(model@),
        ids_in_model(lat.graph().nodes, model@),
    ensures
        forward_ok(model@, lat.graph(), r.0@, r.1@, r.2@),
{
    let ghost g = lat.graph();
    let ghost m = model@;
    proof {
        lat.lemma_graph_wf();
    }
    let n = lat.node_count();
    let len = lat.sentence().len();
    let bos = lat.bos_node();
    let eos = lat.eos_node();
    let mut cost = filled_i64(n, 0);
    let mut reach = filled_bool(n, false);
    let mut prev = filled_usize(n, 0);
    reach.set(bos, true);
    let mut p: usize = 0;
    while p <= len
        invariant
            0 <= p <= len + 1,
            cost@.len() == n,
            reach@.len() == n,
            prev@.len() == n,
            forall|id: int|
                0 <= id < n && fw_processed(g, p as int, 0, id) ==> fw_node_ok(
                    m,
                    g,
                    cost@,
                    reach@,
                    prev@,
                    id,
                ),
            forall|id: int|
                0 <= id < n && !fw_processed(g, p as int, 0, id) ==> !(#[trigger] reach@[id]),
        decreases len + 1 - p,
    {
        let blist = lat.begin_nodes(p);
        let mut k: usize = 0;
        while k < blist.len()
            invariant
                0 <= k <= g.begins[p as int].len(),
                cost@.len() == n,
                reach@.len() == n,
                prev@.len() == n,
                forall|id: int|
                    0 <= id < n && fw_processed(g, p as int, k as int, id) ==> fw_node_ok(
                        m,
                        g,
                        cost@,
                        reach@,
                        prev@,
                        id,
                    ),
                forall|id: int|
                    0 <= id < n && !fw_processed(g, p as int, k as int, id) ==> !(
                    #[trigger] reach@[id]),
            decreases g.begins[p as int].len() - k,
        {
            let id = blist[k];
            proof {
                assert(id as int == g.begins[p as int][k as int]);
                assert(valid_id(g, id as int) && id as int != g.bos && g.nodes[
                    id as int
                ].begin == p);
            }
            let elist = lat.end_nodes(p);
            let mut found = false;
            let mut best: i64 = 0;
            let mut barg: usize = 0;
            let mut j: usize = 0;
            while j < elist.len()
                invariant
                    0 <= j <= g.ends[p as int].len(),
                    best_pred(m, g, id as int, 0) == opt_min(
                        if found {
                            Option::Some(best as int)
                        } else {
                            Option::<int>::None
                        },
                        best_pred(m, g, id as int, j as int),
                    ),
                    found ==> {
                        &&& g.ends[p as int].contains(barg as int)
                        &&& alpha(m, g, barg as int) is Some
                        &&& best as int == alpha(m, g, barg as int).unwrap() + edge_cost(
                            m,
                            g,
                            barg as int,
                            id as int,
                        )
                        &&& -(0x10000 * cost_rank(g, id as int) + 0x8000) <= best as int <= 0x10000
                            * cost_rank(g, id as int) + 0x8000
                    },
                decreases g.ends[p as int].len() - j,
            {
                let pr = elist[j];
                proof {
                    assert(pr as int == g.ends[p as int][j as int]);
                    assert(valid_id(g, pr as int) && pr as int != g.eos && node_end(
                        g,
                        pr as int,
                    ) == p);
                    if pr as int != g.bos {
                        assert(g.nodes[pr as int].length >= 1);
                        assert(g.nodes[pr as int].begin < p);
                    }
                    assert(fw_processed(g, p as int, 0, pr as int));
                    assert(fw_processed(g, p as int, k as int, pr as int));
                    assert(fw_node_ok(m, g, cost@, reach@, prev@, pr as int));
                }
                if reach[pr] {
                    let ec: i64 = if pr == bos || id == eos {
                        0
                    } else {
                        match model.transition_cost(lat.node_at(pr).rcattr, lat.node_at(id).lcattr) {
                            Result::Ok(c) => c as i64,
                            Result::Err(_) => {
                                proof {
                                    assert(false);
                                }
                                0
                            },
                        }
                    };
                    proof {
                        assert(ec as int == edge_cost(m, g, pr as int, id as int));
                        lemma_alpha_bounds(m, g, pr as int);
                        assert(cost_rank(g, pr as int) + 1 <= cost_rank(g, id as int));
                    }
                    let cand = cost[pr] + ec;
                    proof {
                        assert(best_pred(m, g, id as int, j as int) == opt_min(
                            Option::Some(cand as int),
                            best_pred(m, g, id as int, j + 1),
                        ));
                    }
                    if !found || cand < best {
                        found = true;
                        best = cand;
                        barg = pr;
                    }
                } else {
                    proof {
                        assert(best_pred(m, g, id as int, j as int) == best_pred(
                            m,
                            g,
                            id as int,
                            j + 1,
                        ));
                    }
                }
                j += 1;
            }
            proof {
                assert(best_pred(m, g, id as int, j as int) is None);
            }
            if found {
                let wc = lat.node_at(id).wcost;
                let total = best + (wc as i64);
                cost.set(id, total);
                reach.set(id, true);
                prev.set(id, barg);
                proof {
                    assert(alpha(m, g, id as int) == Option::Some(
                        best as int + word_cost(g, id as int),
                    ));
                    assert(fw_node_ok(m, g, cost@, reach@, prev@, id as int));
                }
            } else {
                proof {
                    assert(!fw_processed(g, p as int, k as int, id as int));
                    assert(alpha(m, g, id as int) is None);
                    assert(fw_node_ok(m, g, cost@, reach@, prev@, id as int));
                }
            }
            proof {
                assert(g.begins[p as int][k as int] == id as int);
                assert(fw_processed(g, p as int, k + 1, id as int));
                assert forall|x: int|
                    0 <= x < n && fw_processed(g, p as int, k + 1, x) implies fw_node_ok(
                    m,
                    g,
                    cost@,
                    reach@,
                    prev@,
                    x,
                ) by {
                    if x != id as int {
                        assert(fw_processed(g, p as int, k as int, x));
                    }
                }
                assert forall|x: int|
                    0 <= x < n && !fw_processed(g, p as int, k + 1, x) implies !(
                #[trigger] reach@[x]) by {
                    assert(!fw_processed(g, p as int, k as int, x));
                }
            }
            k += 1;
        }
        proof {
            assert forall|x: int|
                0 <= x < n && fw_processed(g, p + 1, 0, x) implies fw_node_ok(
                m,
                g,
                cost@,
                reach@,
                prev@,
                x,
            ) by {
                if x != g.bos && g.nodes[x].begin == p {
                    assert(g.begins[p as int].contains(x));
                    let k2 = choose|k2: int|
                        0 <= k2 < g.begins[p as int].len() && g.begins[p as int][k2] == x;
                    assert(fw_processed(g, p as int, k as int, x));
                } else {
                    assert(fw_processed(g, p as int, k as int, x));
                }
            }
            assert forall|x: int|
                0 <= x < n && !fw_processed(g, p + 1, 0, x) implies !(#[trigger] reach@[x]) by {
                assert(!fw_processed(g, p as int, k as int, x));
            }
        }
        p += 1;
    }
    proof {
        assert forall|id: int| 0 <= id < n implies fw_node_ok(m, g, cost@, reach@, prev@, id) by {
            assert(fw_processed(g, p as int, 0, id));
        }
        assert(forward_ok(m, g, cost@, reach@, prev@));
    }
    (cost, reach, prev)
}

/// What the backward pass has established for one node.
pub open spec fn bw_node_ok(m: ModelView, g: GraphView, bcost: Seq<i64>, breach: Seq<bool>, id: int) -> bool {
    &&& breach[id] == (beta(m, g, id) is Some)
    &&& (breach[id] ==> beta(m, g, id) == Option::Some(bcost[id] as int))
}

/// Which nodes the backward scan has handled once it stands at position
/// `p`, entry `k` of the end-list there.
pub open spec fn bw_processed(g: GraphView, p: int, k: int, id: int) -> bool {
    ||| id == g.eos
    ||| (valid_id(g, id) && node_end(g, id) > p)
    ||| (valid_id(g, id) && id != g.eos && node_end(g, id) == p && exists|k2: int|
        0 <= k2 < k && g.ends[p][k2] == id)
}

/// The backward best-cost sweep: positions in descending order, so every
/// successor is settled before its predecessors.
#[verifier::loop_isolation(false)]
fn backward_pass(lat: &Lattice, model: &Model) -> (r: (Vec<i64>, Vec<bool>))
    requires
        lat.wf(),
        lat.is_built(),
        model@.loaded,
        crate::dict::model_data_ok(model@),
        ids_in_model(lat.graph().nodes, model@),
    ensures
        backward_ok(model@, lat.graph(), r.0@, r.1@),
{
    let ghost g = lat.graph();
    let ghost m = model@;
    proof {
        lat.lemma_graph_wf();
    }
    let n = lat.node_count();
    let len = lat.sentence().len();
    let bos = lat.bos_node();
    let eos = lat.eos_node();
    let mut bcost = filled_i64(n, 0);
    let mut breach = filled_bool(n, false);
    breach.set(eos, true);
    let mut p: usize = len + 1;
    while p > 0
        invariant
            0 <= p <= len + 1,
            bcost@.len() == n,
            breach@.len() == n,
            forall|id: int|
                0 <= id < n && bw_processed(g, p - 1, 0, id) ==> bw_node_ok(
                    m,
                    g,
                    bcost@,
                    breach@,
                    id,
                ),
            forall|id: int|
                0 <= id < n && !bw_processed(g, p - 1, 0, id) ==> !(#[trigger] breach@[id]),
        decreases p,
    {
        p -= 1;
        let elist = lat.end_nodes(p);
        let mut k: usize = 0;
        while k < elist.len()
            invariant
                0 <= k <= g.ends[p as int].len(),
                bcost@.len() == n,
                breach@.len() == n,
                forall|id: int|
                    0 <= id < n && bw_processed(g, p as int, k as int, id) ==> bw_node_ok(
                        m,
                        g,
                        bcost@,
                        breach@,
                        id,
                    ),
                forall|id: int|
                    0 <= id < n && !bw_processed(g, p as int, k as int, id) ==> !(
                    #[trigger] breach@[id]),
            decreases g.ends[p as int].len() - k,
        {
            let id = elist[k];
            proof {
                assert(id as int == g.ends[p as int][k as int]);
                assert(valid_id(g, id as int) && id as int != g.eos && node_end(g, id as int) == p);
            }
            let blist = lat.begin_nodes(p);
            let mut found = false;
            let mut best: i64 = 0;
            let mut j: usize = 0;
            while j < blist.len()
                invariant
                    0 <= j <= g.begins[p as int].len(),
                    beta(m, g, id as int) == opt_min(
                        if found {
                            Option::Some(best as int)
                        } else {
                            Option::<int>::None
                        },
                        best_succ(m, g, id as int, j as int),
                    ),
                    found ==> -beta_mag(g, g.len, id as int) <= best as int <= beta_mag(
                        g,
                        g.len,
                        id as int,
                    ),
                decreases g.begins[p as int].len() - j,
            {
                let s = blist[j];
                proof {
                    assert(s as int == g.begins[p as int][j as int]);
                    assert(valid_id(g, s as int) && s as int != g.bos && g.nodes[
                        s as int
                    ].begin == p);
                    if s as int != g.eos {
                        assert(g.nodes[s as int].length >= 1);
                        assert(node_end(g, s as int) > p);
                    }
                    assert(bw_processed(g, p as int, k as int, s as int));
                    assert(bw_node_ok(m, g, bcost@, breach@, s as int));
                }
                if breach[s] {
                    let ec: i64 = if id == bos || s == eos {
                        0
                    } else {
                        match model.transition_cost(lat.node_at(id).rcattr, lat.node_at(s).lcattr) {
                            Result::Ok(c) => c as i64,
                            Result::Err(_) => {
                                proof {
                                    assert(false);
                                }
                                0
                            },
                        }
                    };
                    proof {
                        assert(ec as int == edge_cost(m, g, id as int, s as int));
                        lemma_beta_bounds(m, g, s as int);
                        assert(cost_rank(g, id as int) + 1 <= cost_rank(g, s as int));
                        assert(beta_mag(g, g.len, s as int) + 0x10000 <= beta_mag(
                            g,
                            g.len,
                            id as int,
                        )) by (nonlinear_arith)
                            requires
                                cost_rank(g, id as int) + 1 <= cost_rank(g, s as int),
                        ;
                    }
                    let wc = lat.node_at(s).wcost;
                    let cand = ec + (wc as i64) + bcost[s];
                    proof {
                        assert(best_succ(m, g, id as int, j as int) == opt_min(
                            Option::Some(cand as int),
                            best_succ(m, g, id as int, j + 1),
                        ));
                    }
                    if !found || cand < best {
                        found = true;
                        best = cand;
                    }
                } else {
                    proof {
                        assert(best_succ(m, g, id as int, j as int) == best_succ(
                            m,
                            g,
                            id as int,
                            j + 1,
                        ));
                    }
                }
                j += 1;
            }
            proof {
                assert(best_succ(m, g, id as int, j as int) is None);
            }
            if found {
                bcost.set(id, best);
                breach.set(id, true);
            } else {
                proof {
                    assert(!bw_processed(g, p as int, k as int, id as int));
                    assert(beta(m, g, id as int) is None);
                }
            }
            proof {
                assert(g.ends[p as int][k as int] == id as int);
                assert(bw_processed(g, p as int, k + 1, id as int));
                assert(bw_node_ok(m, g, bcost@, breach@, id as int));
                assert forall|x: int|
                    0 <= x < n && bw_processed(g, p as int, k + 1, x) implies bw_node_ok(
                    m,
                    g,
                    bcost@,
                    breach@,
                    x,
                ) by {
                    if x != id as int {
                        assert(bw_processed(g, p as int, k as int, x));
                    }
                }
                assert forall|x: int|
                    0 <= x < n && !bw_processed(g, p as int, k + 1, x) implies !(
                #[trigger] breach@[x]) by {
                    assert(!bw_processed(g, p as int, k as int, x));
                }
            }
            k += 1;
        }
        proof {
            assert forall|x: int|
                0 <= x < n && bw_processed(g, p - 1, 0, x) implies bw_node_ok(
                m,
                g,
                bcost@,
                breach@,
                x,
            ) by {
                if x != g.eos && node_end(g, x) == p {
                    assert(g.ends[p as int].contains(x));
                    let k2 = choose|k2: int|
                        0 <= k2 < g.ends[p as int].len() && g.ends[p as int][k2] == x;
                    assert(bw_processed(g, p as int, k as int, x));
                } else {
                    assert(bw_processed(g, p as int, k as int, x));
                }
            }
            assert forall|x: int|
                0 <= x < n && !bw_processed(g, p - 1, 0, x) implies !(#[trigger] breach@[x]) by {
                assert(!bw_processed(g, p as int, k as int, x));
            }
        }
    }
    proof {
        assert forall|id: int| 0 <= id < n implies bw_node_ok(m, g, bcost@, breach@, id) by {
            assert(node_end(g, id) >= 0);
            assert(bw_processed(g, -1, 0, id));
        }
    }
    (bcost, breach)
}

/// The reversal of a tight chain: the chain claims over `rev`, which
/// runs from end-of-sentence backwards.
pub open spec fn rev_chain_ok(m: ModelView, g: GraphView, rev: Seq<usize>) -> bool {
    &&& rev.len() >= 2
    &&& rev[0] as int == g.eos
    &&& rev.last() as int == g.bos
    &&& forall|i: int| 0 <= i < rev.len() ==> valid_id(g, #[trigger] rev[i] as int)
    &&& forall|i: int|
        0 <= i < rev.len() - 1 ==> g.ends[g.nodes[rev[i] as int].begin].contains(
            #[trigger] rev[i + 1] as int,
        )
    &&& forall|i: int|
        0 <= i < rev.len() - 1 ==> alpha(m, g, #[trigger] rev[i] as int) is Some && alpha(
            m,
            g,
            rev[i] as int,
        ) == Option::Some(
            alpha(m, g, rev[i + 1] as int).unwrap() + edge_cost(m, g, rev[i + 1] as int, rev[
                i
            ] as int) + word_cost(g, rev[i] as int),
        )
}

/// Walk the settled `prev` links from end-of-sentence back to
/// begin-of-sentence.
#[verifier::loop_isolation(false)]
#[verifier::rlimit(60)]
fn walk_back(
    lat: &Lattice,
    model: &Model,
    cost: &Vec<i64>,
    reach: &Vec<bool>,
    prev: &Vec<usize>,
) -> (rev: Vec<usize>)
    requires
        lat.wf(),
        lat.is_built(),
        forward_ok(model@, lat.graph(), cost@, reach@, prev@),
        alpha(model@, lat.graph(), lat.graph().eos) is Some,
    ensures
        rev_chain_ok(model@, lat.graph(), rev@),
{
    let ghost g = lat.graph();
    let ghost m = model@;
    proof {
        lat.lemma_graph_wf();
    }
    let bos = lat.bos_node();
    let eos = lat.eos_node();
    proof {
        assert(fw_node_ok(m, g, cost@, reach@, prev@, g.eos));
    }
    let mut rev: Vec<usize> = Vec::new();
    rev.push(eos);
    let mut cur = eos;
    while cur != bos
        invariant
            rev@.len() >= 1,
            rev@[0] == eos,
            rev@.last() == cur,
            valid_id(g, cur as int),
            reach@[cur as int],
            forall|i: int| 0 <= i < rev@.len() ==> valid_id(g, #[trigger] rev@[i] as int),
            forall|i: int| 0 <= i < rev@.len() ==> reach@[#[trigger] rev@[i] as int],
            forall|i: int|
                0 <= i < rev@.len() - 1 ==> g.ends[g.nodes[rev@[i] as int].begin].contains(
                    #[trigger] rev@[i + 1] as int,
                ),
            forall|i: int|
                0 <= i < rev@.len() - 1 ==> alpha(m, g, #[trigger] rev@[i] as int)
                    == Option::Some(
                    alpha(m, g, rev@[i + 1] as int).unwrap() + edge_cost(
                        m,
                        g,
                        rev@[i + 1] as int,
                        rev@[i] as int,
                    ) + word_cost(g, rev@[i] as int),
                ),
        decreases cost_rank(g, cur as int),
    {
        let pr = prev[cur];
        proof {
            assert(fw_node_ok(m, g, cost@, reach@, prev@, cur as int));
            assert(g.ends[g.nodes[cur as int].begin].contains(pr as int));
            let k = choose|k: int|
                0 <= k < g.ends[g.nodes[cur as int].begin].len() && g.ends[g.nodes[
                    cur as int
                ].begin][k] == pr as int;
            assert(valid_id(g, pr as int) && pr as int != g.eos && node_end(g, pr as int)
                == g.nodes[cur as int].begin);
            if pr as int != g.bos {
                assert(g.nodes[pr as int].length >= 1);
            }
            assert(cost_rank(g, pr as int) < cost_rank(g, cur as int));
            assert(fw_node_ok(m, g, cost@, reach@, prev@, pr as int));
        }
        rev.push(pr);
        cur = pr;
    }
    rev
}

/// The element-wise reversal of a backward tight chain is a tight path.
#[verifier::rlimit(100)]
proof fn lemma_rev_tight(m: ModelView, g: GraphView, rev: Seq<usize>, path: Seq<usize>)
    requires
        wf_graph(g),
        rev_chain_ok(m, g, rev),
        path.len() == rev.len(),
        forall|j: int| 0 <= j < path.len() ==> #[trigger] path[j] == rev[path.len() - 1 - j],
    ensures
        tight_path(m, g, path),
{
    let n = path.len() as int;
    assert(path[0] == rev[n - 1]);
    assert(path.last() == rev[0]);
    assert forall|j: int| 0 <= j < n implies valid_id(g, #[trigger] path[j] as int) by {
        assert(path[j] == rev[n - 1 - j]);
    }
    assert forall|j: int|
        0 <= j < n - 1 implies g.ends[g.nodes[path[j + 1] as int].begin].contains(
        #[trigger] path[j] as int,
    ) by {
        let i = n - 2 - j;
        assert(path[j + 1] == rev[i]);
        assert(path[j] == rev[i + 1]);
    }
    assert forall|j: int|
        0 <= j < n - 1 implies alpha(m, g, #[trigger] path[j + 1] as int) is Some && alpha(
        m,
        g,
        path[j + 1] as int,
    ) == Option::Some(
        alpha(m, g, path[j] as int).unwrap() + edge_cost(m, g, path[j] as int, path[j + 1] as int)
            + word_cost(g, path[j + 1] as int),
    ) by {
        let i = n - 2 - j;
        assert(path[j + 1] == rev[i]);
        assert(path[j] == rev[i + 1]);
        assert(alpha(m, g, rev[i] as int) is Some && alpha(m, g, rev[i] as int) == Option::Some(
            alpha(m, g, rev[i + 1] as int).unwrap() + edge_cost(m, g, rev[i + 1] as int, rev[
                i
            ] as int) + word_cost(g, rev[i] as int),
        ));
    }
    assert(alpha(m, g, path[0] as int) == Option::Some(0int));
}

/// Turn the backward chain around into sentence order.
#[verifier::loop_isolation(false)]
#[verifier::rlimit(100)]
fn extract_path(
    lat: &Lattice,
    model: &Model,
    cost: &Vec<i64>,
    reach: &Vec<bool>,
    prev: &Vec<usize>,
) -> (path: Vec<usize>)
    requires
        lat.wf(),
        lat.is_built(),
        forward_ok(model@, lat.graph(), cost@, reach@, prev@),
        alpha(model@, lat.graph(), lat.graph().eos) is Some,
    ensures
        tight_path(model@, lat.graph(), path@),
{
    let ghost g = lat.graph();
    let ghost m = model@;
    proof {
        lat.lemma_graph_wf();
    }
    let rev = walk_back(lat, model, cost, reach, prev);
    let mut path: Vec<usize> = Vec::new();
    let rn = rev.len();
    let mut i: usize = rn;
    while i > 0
        invariant
            0 <= i <= rn,
            rn == rev@.len(),
            path@.len() == rn - i,
            forall|j: int| 0 <= j < path@.len() ==> #[trigger] path@[j] == rev@[rn - 1 - j],
        decreases i,
    {
        i -= 1;
        path.push(rev[i]);
    }
    proof {
        lemma_rev_tight(m, g, rev@, path@);
    }
    path
}

/// Whether any path from begin-of-sentence reaches `n`.
pub open spec fn reachable(m: ModelView, g: GraphView, n: int) -> bool {
    alpha(m, g, n) is Some
}

/// The cost of the best complete path: absent when the lattice is
/// unconnected.
pub open spec fn best_total(m: ModelView, g: GraphView) -> Option<int> {
    alpha(m, g, g.eos)
}

/// Everything one search over a built lattice computes: the forward and
/// backward best costs per node, the best complete path, and its total
/// cost.
pub struct SearchResult {
    /// Cheapest arrival cost per node, valid where `reach` holds.
    pub cost: Vec<i64>,
    /// Whether a path from begin-of-sentence arrives at each node.
    pub reach: Vec<bool>,
    /// A predecessor achieving the cheapest arrival, per reachable node.
    pub prev: Vec<usize>,
    /// Cheapest remaining cost per node, valid where `breach` holds.
    pub bcost: Vec<i64>,
    /// Whether end-of-sentence is reachable from each node.
    pub breach: Vec<bool>,
    /// The cost of the best complete path.
    pub total: i64,
    /// The best complete path, begin-of-sentence first.
    pub path: Vec<usize>,
    /// Whether each node lies on the best path found.
    pub isbest: Vec<bool>,
}

/// What a successful search promises.
pub open spec fn search_ok(m: ModelView, g: GraphView, s: SearchResult) -> bool {
    &&& forward_ok(m, g, s.cost@, s.reach@, s.prev@)
    &&& backward_ok(m, g, s.bcost@, s.breach@)
    &&& best_total(m, g) == Option::Some(s.total as int)
    &&& tight_path(m, g, s.path@)
    &&& alpha(m, g, g.eos) == Option::Some(s.total as int)
    &&& s.isbest@.len() == g.nodes.len()
    &&& forall|i: int| 0 <= i < s.path@.len() ==> s.isbest@[#[trigger] s.path@[i] as int]
    &&& forall|id: int| 0 <= id < g.nodes.len() && s.isbest@[id] ==> s.path@.contains(id as usize)
}

/// Run best-path search over a built lattice: forward and backward
/// cumulative costs, then the best path recovered from the settled
/// predecessor links.
/// Flag the nodes that lie on the best path.
#[verifier::loop_isolation(false)]
fn stamp_best(n: usize, path: &Vec<usize>) -> (isbest: Vec<bool>)
    requires
        forall|i: int| 0 <= i < path@.len() ==> (#[trigger] path@[i] as int) < n,
    ensures
        isbest@.len() == n,
        forall|i: int| 0 <= i < path@.len() ==> isbest@[#[trigger] path@[i] as int],
        forall|id: int| 0 <= id < n && isbest@[id] ==> path@.contains(id as usize),
{
    let mut isbest = filled_bool(n, false);
    let mut i: usize = 0;
    while i < path.len()
        invariant
            0 <= i <= path@.len(),
            isbest@.len() == n,
            forall|j: int| 0 <= j < i ==> isbest@[#[trigger] path@[j] as int],
            forall|x: int| 0 <= x < n && isbest@[x] ==> path@.contains(x as usize),
        decreases path@.len() - i,
    {
        let pid = path[i];
        isbest.set(pid, true);
        proof {
            assert(path@[i as int] == pid);
            assert(path@.contains(pid));
        }
        i += 1;
    }
    isbest
}

/// Reject a lattice whose context categories the model's table does not
/// cover: such a pair belongs to a different model.
#[verifier::loop_isolation(false)]
pub(crate) fn check_ids(lat: &Lattice, model: &Model) -> (r: Result<(), MecabError>)
    requires
        lat.wf(),
        lat.is_built(),
    ensures
        match r {
            Result::Ok(()) => ids_in_model(lat.graph().nodes, model@),
            Result::Err(e) => {
                &&& !ids_in_model(lat.graph().nodes, model@)
                &&& exists|id: int|
                    valid_id(lat.graph(), id) && e == (MecabError::InvalidCategoryId {
                        right_id: (#[trigger] lat.graph().nodes[id]).rcattr,
                        left_id: lat.graph().nodes[id].lcattr,
                    }) && !(lat.graph().nodes[id].lcattr < model@.lsize && lat.graph().nodes[
                        id
                    ].rcattr < model@.rsize)
            },
        },
{
    let ghost g = lat.graph();
    let ghost m = model@;
    proof {
        lat.lemma_graph_wf();
    }
    let n = lat.node_count();
    let mut id: usize = 0;
    while id < n
        invariant
            0 <= id <= n,
            forall|x: int|
                0 <= x < id ==> (#[trigger] g.nodes[x]).lcattr < m.lsize && g.nodes[x].rcattr
                    < m.rsize,
        decreases n - id,
    {
        let node = lat.node_at(id);
        if node.lcattr >= model.lsize() || node.rcattr >= model.rsize() {
            return Result::Err(
                MecabError::InvalidCategoryId { right_id: node.rcattr, left_id: node.lcattr },
            );
        }
        id += 1;
    }
    Result::Ok(())
}

/// Run best-path search over a built lattice: forward and backward
/// cumulative costs, then the best path recovered from the settled
/// predecessor links. The outcome is recorded in the lattice for later
/// diagnosis; nothing else about the lattice changes. On a cost tie the
/// implementation keeps the earliest-created predecessor, but the
/// contract pins only the cost, as the specification itself allows.
#[verifier::loop_isolation(false)]
#[verifier::rlimit(100)]
#[verifier::spinoff_prover]
pub fn search(lat: &mut Lattice, model: &Model) -> (r: Result<SearchResult, MecabError>)
    requires
        old(lat).wf(),
        old(lat).is_built(),
    ensures
        final(lat).sen() == old(lat).sen(),
        final(lat).bnd() == old(lat).bnd(),
        final(lat).fc() == old(lat).fc(),
        final(lat).req() == old(lat).req(),
        final(lat).is_built() && final(lat).wf(),
        final(lat).graph() == old(lat).graph(),
        final(lat).err() == (match r {
            Result::Ok(_) => Option::<MecabError>::None,
            Result::Err(e) => Option::Some(e),
        }),
        ({
            let m = model@;
            let g = old(lat).graph();
            match r {
                Result::Ok(s) => {
                    &&& m.loaded
                    &&& ids_in_model(g.nodes, m)
                    &&& best_total(m, g) is Some
                    &&& search_ok(m, g, s)
                },
                Result::Err(e) => match e {
                    MecabError::DictionaryUnavailable => !m.loaded,
                    MecabError::InvalidCategoryId { right_id, left_id } => {
                        &&& m.loaded
                        &&& !ids_in_model(g.nodes, m)
                        &&& exists|id: int|
                            valid_id(g, id) && (#[trigger] g.nodes[id]).rcattr == right_id
                                && g.nodes[id].lcattr == left_id && !(g.nodes[id].lcattr < m.lsize
                                && g.nodes[id].rcattr < m.rsize)
                    },
                    MecabError::Unconnected => {
                        &&& m.loaded
                        &&& ids_in_model(g.nodes, m)
                        &&& best_total(m, g) is None
                    },
                    _ => false,
                },
            }
        }),
{
    let ghost g = lat.graph();
    let ghost m = model@;
    proof {
        lat.lemma_graph_wf();
    }
    if !model.is_available() {
        let e = MecabError::DictionaryUnavailable;
        lat.note_error(Option::Some(e));
        return Result::Err(e);
    }
    let n = lat.node_count();
    match check_ids(lat, model) {
        Result::Err(e) => {
            lat.note_error(Option::Some(e));
            return Result::Err(e);
        },
        Result::Ok(()) => {},
    }
    let (cost, reach, prev) = forward_pass(lat, model);
    let eos = lat.eos_node();
    proof {
        assert(fw_node_ok(m, g, cost@, reach@, prev@, g.eos));
    }
    if !reach[eos] {
        let e = MecabError::Unconnected;
        lat.note_error(Option::Some(e));
        return Result::Err(e);
    }
    let (bcost, breach) = backward_pass(lat, model);
    let path = extract_path(lat, model, &cost, &reach, &prev);
    let total = cost[eos];
    let isbest = stamp_best(n, &path);
    lat.note_error(Option::None);
    Result::Ok(SearchResult { cost, reach, prev, bcost, breach, total, path, isbest })
}

} // verus!
