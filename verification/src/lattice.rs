//! The lattice: every candidate node over the input, linked by
//! per-position begin/end adjacency lists, between a synthetic
//! begin-of-sentence node and a synthetic end-of-sentence node.

use vstd::prelude::*;

use crate::BoundaryType;
use crate::MecabError;
use crate::NodeStat;
use crate::dict::CandidateView;
use crate::dict::Model;
use crate::dict::ModelView;
use crate::dict::spec_lookup;

verus! {

/// The longest input a lattice accepts, in bytes. The bound is a machine
/// limit, not a feature of the model: it keeps the per-position tables
/// addressable and the 64-bit cumulative cost arithmetic of the search
/// provably free of overflow; memory is otherwise the only constraint.
pub const MAX_SENTENCE_LEN: usize = 0xFFFF_FFFE;

/// One candidate morpheme occupying `[begin, begin + length)` of the input.
pub struct Node {
    pub begin: usize,
    pub length: usize,
    pub lcattr: u16,
    pub rcattr: u16,
    pub posid: u16,
    pub wcost: i16,
    pub stat: NodeStat,
    pub feature: String,
}

/// Mathematical image of a [`Node`].
pub ghost struct NodeView {
    pub begin: int,
    pub length: int,
    pub lcattr: u16,
    pub rcattr: u16,
    pub posid: u16,
    pub wcost: i16,
    pub stat: NodeStat,
    pub feature: Seq<char>,
}

impl View for Node {
    type V = NodeView;

    open spec fn view(&self) -> NodeView {
        NodeView {
            begin: self.begin as int,
            length: self.length as int,
            lcattr: self.lcattr,
            rcattr: self.rcattr,
            posid: self.posid,
            wcost: self.wcost,
            stat: self.stat,
            feature: self.feature@,
        }
    }
}

impl DeepView for Node {
    type V = NodeView;

    open spec fn deep_view(&self) -> NodeView {
        self.view()
    }
}

/// A forced surface/feature literal over the exact span `[begin, end)`.
pub struct FeatureConstraint {
    pub begin: usize,
    pub end: usize,
    pub feature: String,
}

/// Mathematical image of a [`FeatureConstraint`].
pub ghost struct FcView {
    pub begin: int,
    pub end: int,
    pub feature: Seq<char>,
}

impl View for FeatureConstraint {
    type V = FcView;

    open spec fn view(&self) -> FcView {
        FcView { begin: self.begin as int, end: self.end as int, feature: self.feature@ }
    }
}

impl DeepView for FeatureConstraint {
    type V = FcView;

    open spec fn deep_view(&self) -> FcView {
        self.view()
    }
}

/// The node graph alone: what path search reads.
pub ghost struct GraphView {
    /// Input length in bytes.
    pub len: int,
    pub nodes: Seq<NodeView>,
    /// For each position, the ids of the nodes beginning there
    /// (end-of-sentence counts, begin-of-sentence does not).
    pub begins: Seq<Seq<int>>,
    /// For each position, the ids of the nodes ending there
    /// (begin-of-sentence counts, end-of-sentence does not).
    pub ends: Seq<Seq<int>>,
    pub bos: int,
    pub eos: int,
}

/// Position one past a node's span.
pub open spec fn node_end(g: GraphView, id: int) -> int {
    g.nodes[id].begin + g.nodes[id].length
}

/// Whether `id` names a node of the graph.
pub open spec fn valid_id(g: GraphView, id: int) -> bool {
    0 <= id < g.nodes.len()
}

/// A strictly increasing id list: each node occurs at most once, in
/// creation order.
pub open spec fn id_list_sorted(l: Seq<int>) -> bool {
    forall|k1: int, k2: int| 0 <= k1 < k2 < l.len() ==> l[k1] < l[k2]
}

/// The lattice invariant: spans lie inside the input, only the two
/// synthetic nodes are empty, and the adjacency list at a position holds
/// exactly the nodes whose span starts (ends) there, in creation order.
pub open spec fn wf_graph(g: GraphView) -> bool {
    &&& 0 <= g.len
    &&& g.begins.len() == g.len + 1
    &&& g.ends.len() == g.len + 1
    &&& g.nodes.len() >= 2
    &&& valid_id(g, g.bos)
    &&& valid_id(g, g.eos)
    &&& g.bos != g.eos
    &&& g.nodes[g.bos].begin == 0
    &&& g.nodes[g.bos].length == 0
    &&& g.nodes[g.eos].begin == g.len
    &&& g.nodes[g.eos].length == 0
    &&& forall|id: int|
        valid_id(g, id) ==> {
            &&& 0 <= (#[trigger] g.nodes[id]).begin
            &&& 0 <= g.nodes[id].length
            &&& g.nodes[id].begin + g.nodes[id].length <= g.len
            &&& (g.nodes[id].length == 0 <==> (id == g.bos || id == g.eos))
            &&& (g.nodes[id].stat == NodeStat::Bos <==> id == g.bos)
            &&& (g.nodes[id].stat == NodeStat::Eos <==> id == g.eos)
        }
    &&& forall|p: int, k: int|
        0 <= p < g.begins.len() && 0 <= k < g.begins[p].len() ==> {
            &&& valid_id(g, #[trigger] g.begins[p][k])
            &&& g.begins[p][k] != g.bos
            &&& g.nodes[g.begins[p][k]].begin == p
        }
    &&& forall|p: int, k: int|
        0 <= p < g.ends.len() && 0 <= k < g.ends[p].len() ==> {
            &&& valid_id(g, #[trigger] g.ends[p][k])
            &&& g.ends[p][k] != g.eos
            &&& node_end(g, g.ends[p][k]) == p
        }
    &&& forall|id: int|
        valid_id(g, id) && id != g.bos ==> (#[trigger] g.begins[g.nodes[id].begin]).contains(id)
    &&& forall|id: int|
        valid_id(g, id) && id != g.eos ==> (#[trigger] g.ends[node_end(g, id)]).contains(id)
    &&& forall|p: int| 0 <= p < g.begins.len() ==> id_list_sorted(#[trigger] g.begins[p])
    &&& forall|p: int| 0 <= p < g.ends.len() ==> id_list_sorted(#[trigger] g.ends[p])
}

/// Whether position `p` lies strictly inside some feature constraint.
pub open spec fn strictly_inside_fc(fcs: Seq<FcView>, p: int) -> bool {
    exists|i: int| 0 <= i < fcs.len() && (#[trigger] fcs[i]).begin < p < fcs[i].end
}

/// Whether position `p` is an edge of some feature constraint.
pub open spec fn at_fc_edge(fcs: Seq<FcView>, p: int) -> bool {
    exists|i: int| 0 <= i < fcs.len() && ((#[trigger] fcs[i]).begin == p || fcs[i].end == p)
}

/// The boundary restriction in force at `p` once the feature constraints
/// are folded in: a forced span keeps its interior inside one token and
/// makes both its edges token boundaries.
pub open spec fn eff_bnd(bnd: Seq<BoundaryType>, fcs: Seq<FcView>, p: int) -> BoundaryType {
    if strictly_inside_fc(fcs, p) {
        BoundaryType::InsideToken
    } else if bnd[p] == BoundaryType::InsideToken {
        BoundaryType::InsideToken
    } else if at_fc_edge(fcs, p) || bnd[p] == BoundaryType::TokenBoundary {
        BoundaryType::TokenBoundary
    } else {
        BoundaryType::Any
    }
}

/// Whether a feature constraint's span fits the input.
pub open spec fn fc_span_ok(f: FcView, len: int) -> bool {
    0 <= f.begin < f.end <= len
}

/// Whether two feature constraints claim a common position.
pub open spec fn fcs_overlap(a: FcView, b: FcView) -> bool {
    a.begin < b.end && b.begin < a.end
}

/// Whether feature constraint `i` contradicts the input bounds, an
/// explicit boundary constraint, or another feature constraint.
pub open spec fn fc_conflicts(bnd: Seq<BoundaryType>, len: int, fcs: Seq<FcView>, i: int) -> bool {
    let f = fcs[i];
    ||| !fc_span_ok(f, len)
    ||| exists|p: int| f.begin < p < f.end && #[trigger] bnd[p] == BoundaryType::TokenBoundary
    ||| bnd[f.begin] == BoundaryType::InsideToken
    ||| bnd[f.end] == BoundaryType::InsideToken
    ||| exists|j: int| 0 <= j < fcs.len() && j != i && fcs_overlap(f, #[trigger] fcs[j])
}

/// Whether the whole constraint set is self-consistent.
pub open spec fn constraints_ok(bnd: Seq<BoundaryType>, len: int, fcs: Seq<FcView>) -> bool {
    forall|i: int| 0 <= i < fcs.len() ==> !fc_conflicts(bnd, len, fcs, i)
}

/// The first feature constraint at index `k` or later that begins
/// exactly at `p`, if any.
pub open spec fn find_fc_from(fcs: Seq<FcView>, p: int, k: int) -> Option<FcView>
    decreases fcs.len() - k,
{
    if k < 0 || k >= fcs.len() {
        Option::None
    } else if fcs[k].begin == p {
        Option::Some(fcs[k])
    } else {
        find_fc_from(fcs, p, k + 1)
    }
}

/// The first feature constraint beginning exactly at `p`, if any.
pub open spec fn find_fc(fcs: Seq<FcView>, p: int) -> Option<FcView> {
    find_fc_from(fcs, p, 0)
}

/// Whether a node spanning `[b, e)` honors the boundary restrictions:
/// it may not end where a position must stay inside a token, nor cross
/// a position that must be a token boundary.
pub open spec fn span_admissible(bnd: Seq<BoundaryType>, fcs: Seq<FcView>, b: int, e: int) -> bool {
    &&& eff_bnd(bnd, fcs, e) != BoundaryType::InsideToken
    &&& forall|q: int| b < q < e ==> eff_bnd(bnd, fcs, q) != BoundaryType::TokenBoundary
}

/// The node a forced feature constraint turns into.
pub open spec fn synth_node(f: FcView) -> NodeView {
    NodeView {
        begin: f.begin,
        length: f.end - f.begin,
        lcattr: 0u16,
        rcattr: 0u16,
        posid: 0u16,
        wcost: 0i16,
        stat: NodeStat::Nor,
        feature: f.feature,
    }
}

/// The node a lookup candidate at `p` turns into.
pub open spec fn cand_node(p: int, c: CandidateView) -> NodeView {
    NodeView {
        begin: p,
        length: c.length,
        lcattr: c.lcattr,
        rcattr: c.rcattr,
        posid: c.posid,
        wcost: c.wcost,
        stat: c.stat,
        feature: c.feature,
    }
}

/// The admissible candidates at `p`, from index `k` on, as nodes.
pub open spec fn admissible_nodes(
    bnd: Seq<BoundaryType>,
    fcs: Seq<FcView>,
    p: int,
    cands: Seq<CandidateView>,
    k: int,
) -> Seq<NodeView>
    decreases cands.len() - k,
{
    if k < 0 || k >= cands.len() {
        Seq::empty()
    } else if span_admissible(bnd, fcs, p, p + cands[k].length) {
        seq![cand_node(p, cands[k])] + admissible_nodes(bnd, fcs, p, cands, k + 1)
    } else {
        admissible_nodes(bnd, fcs, p, cands, k + 1)
    }
}

/// Every node the build creates at position `p`: none where the position
/// must stay inside a token, the one forced node where a feature
/// constraint begins, and the admissible lookup candidates elsewhere.
pub open spec fn nodes_at(
    m: ModelView,
    sen: Seq<u8>,
    bnd: Seq<BoundaryType>,
    fcs: Seq<FcView>,
    p: int,
) -> Seq<NodeView> {
    if eff_bnd(bnd, fcs, p) == BoundaryType::InsideToken {
        Seq::empty()
    } else {
        match find_fc(fcs, p) {
            Option::Some(f) => seq![synth_node(f)],
            Option::None => admissible_nodes(bnd, fcs, p, spec_lookup(m, sen, p), 0),
        }
    }
}

/// A position where a token may begin but no candidate node survives the
/// constraints: fatal to the build.
pub open spec fn bad_pos(
    m: ModelView,
    sen: Seq<u8>,
    bnd: Seq<BoundaryType>,
    fcs: Seq<FcView>,
    p: int,
) -> bool {
    &&& 0 <= p < sen.len()
    &&& eff_bnd(bnd, fcs, p) != BoundaryType::InsideToken
    &&& nodes_at(m, sen, bnd, fcs, p).len() == 0
}

/// The synthetic begin-of-sentence node.
pub open spec fn bos_node_view() -> NodeView {
    NodeView {
        begin: 0,
        length: 0,
        lcattr: 0u16,
        rcattr: 0u16,
        posid: 0u16,
        wcost: 0i16,
        stat: NodeStat::Bos,
        feature: Seq::empty(),
    }
}

/// The synthetic end-of-sentence node over an input of length `len`.
pub open spec fn eos_node_view(len: int) -> NodeView {
    NodeView {
        begin: len,
        length: 0,
        lcattr: 0u16,
        rcattr: 0u16,
        posid: 0u16,
        wcost: 0i16,
        stat: NodeStat::Eos,
        feature: Seq::empty(),
    }
}

/// The nodes created at positions `p, p + 1, ...` of the scan.
pub open spec fn built_tail(
    m: ModelView,
    sen: Seq<u8>,
    bnd: Seq<BoundaryType>,
    fcs: Seq<FcView>,
    p: int,
) -> Seq<NodeView>
    decreases sen.len() - p,
{
    if p < 0 || p >= sen.len() {
        Seq::empty()
    } else {
        nodes_at(m, sen, bnd, fcs, p) + built_tail(m, sen, bnd, fcs, p + 1)
    }
}

/// Every node of a successful build, in creation order: begin-of-sentence
/// first, then the position scan, end-of-sentence last.
pub open spec fn built_nodes(
    m: ModelView,
    sen: Seq<u8>,
    bnd: Seq<BoundaryType>,
    fcs: Seq<FcView>,
) -> Seq<NodeView> {
    seq![bos_node_view()] + built_tail(m, sen, bnd, fcs, 0) + seq![eos_node_view(sen.len() as int)]
}

/// The mathematical image of a vector of per-position id lists.
pub open spec fn idlists_view(s: Seq<Vec<usize>>) -> Seq<Seq<int>> {
    Seq::new(s.len(), |p: int| s[p]@.map_values(|id: usize| id as int))
}

/// What holds of the node arena and the adjacency lists at every moment
/// of the position scan: begin-of-sentence sits at id 0, every later node
/// is a non-empty span inside the input, and the lists at each position
/// hold exactly the created nodes that start (end) there, in creation
/// order.
pub open spec fn partial_lists_ok(
    nodes: Seq<NodeView>,
    bg: Seq<Seq<int>>,
    en: Seq<Seq<int>>,
    len: int,
) -> bool {
    &&& bg.len() == len + 1
    &&& en.len() == len + 1
    &&& nodes.len() >= 1
    &&& nodes[0] == bos_node_view()
    &&& forall|id: int|
        1 <= id < nodes.len() ==> {
            &&& 0 <= (#[trigger] nodes[id]).begin
            &&& nodes[id].length >= 1
            &&& nodes[id].begin + nodes[id].length <= len
            &&& (nodes[id].stat == NodeStat::Nor || nodes[id].stat == NodeStat::Unk)
        }
    &&& forall|p: int, k: int|
        0 <= p < bg.len() && 0 <= k < bg[p].len() ==> {
            &&& 1 <= #[trigger] bg[p][k] < nodes.len()
            &&& nodes[bg[p][k]].begin == p
        }
    &&& forall|p: int, k: int|
        0 <= p < en.len() && 0 <= k < en[p].len() ==> {
            &&& 0 <= #[trigger] en[p][k] < nodes.len()
            &&& nodes[en[p][k]].begin + nodes[en[p][k]].length == p
        }
    &&& forall|id: int| 1 <= id < nodes.len() ==> (#[trigger] bg[nodes[id].begin]).contains(id)
    &&& forall|id: int|
        0 <= id < nodes.len() ==> (#[trigger] en[nodes[id].begin + nodes[id].length]).contains(id)
    &&& forall|p: int| 0 <= p < bg.len() ==> id_list_sorted(#[trigger] bg[p])
    &&& forall|p: int| 0 <= p < en.len() ==> id_list_sorted(#[trigger] en[p])
}

/// Whether every node's context categories lie inside the model's
/// connection-cost table.
pub open spec fn ids_in_model(nodes: Seq<NodeView>, m: ModelView) -> bool {
    forall|id: int|
        0 <= id < nodes.len() ==> (#[trigger] nodes[id]).lcattr < m.lsize && nodes[id].rcattr
            < m.rsize
}

/// The lattice under construction and its inputs: the sentence, the
/// request modes, and the constraint set consumed by the next build.
pub struct Lattice {
    sentence: Vec<u8>,
    boundaries: Vec<BoundaryType>,
    fcs: Vec<FeatureConstraint>,
    request_type: i32,
    nodes: Vec<Node>,
    begins: Vec<Vec<usize>>,
    ends: Vec<Vec<usize>>,
    built: bool,
    last_error: Option<MecabError>,
}

impl Lattice {
    /// The input bytes.
    pub closed spec fn sen(&self) -> Seq<u8> {
        self.sentence@
    }

    /// The boundary constraint at each of the `len + 1` positions.
    pub closed spec fn bnd(&self) -> Seq<BoundaryType> {
        self.boundaries@
    }

    /// The feature constraints, in the order they were supplied.
    pub closed spec fn fc(&self) -> Seq<FcView> {
        self.fcs.deep_view()
    }

    /// The request-mode flag set.
    pub closed spec fn req(&self) -> int {
        self.request_type as int
    }

    /// Whether the last build completed.
    pub closed spec fn is_built(&self) -> bool {
        self.built
    }

    /// The node graph of the last build.
    pub closed spec fn graph(&self) -> GraphView {
        GraphView {
            len: self.sentence@.len() as int,
            nodes: self.nodes.deep_view(),
            begins: idlists_view(self.begins@),
            ends: idlists_view(self.ends@),
            bos: 0,
            eos: self.nodes@.len() - 1,
        }
    }

    /// The diagnostic state left by the last failed operation.
    pub closed spec fn err(&self) -> Option<MecabError> {
        self.last_error
    }

    /// Basic consistency of a lattice value, built or not.
    pub closed spec fn wf(&self) -> bool {
        &&& self.sentence@.len() <= MAX_SENTENCE_LEN
        &&& self.boundaries@.len() == self.sentence@.len() + 1
        &&& (self.built ==> wf_graph(self.graph()))
    }

    /// An empty lattice over the empty input.
    pub fn new() -> (r: Lattice)
        ensures
            r.wf(),
            !r.is_built(),
            r.sen() == Seq::<u8>::empty(),
            r.bnd() =~= seq![BoundaryType::Any],
            r.fc() == Seq::<FcView>::empty(),
            r.req() == crate::REQUEST_ONE_BEST as int,
            r.err() is None,
    {
        let mut boundaries: Vec<BoundaryType> = Vec::new();
        boundaries.push(BoundaryType::Any);
        let r = Lattice {
            sentence: Vec::new(),
            boundaries,
            fcs: Vec::new(),
            request_type: crate::REQUEST_ONE_BEST,
            nodes: Vec::new(),
            begins: Vec::new(),
            ends: Vec::new(),
            built: false,
            last_error: Option::None,
        };
        proof {
            assert(r.fc() =~= Seq::<FcView>::empty());
        }
        r
    }

    /// Forget the previous input, graph, constraints and diagnostics.
    pub fn clear(&mut self)
        ensures
            final(self).wf(),
            !final(self).is_built(),
            final(self).sen() == Seq::<u8>::empty(),
            final(self).bnd() =~= seq![BoundaryType::Any],
            final(self).fc() == Seq::<FcView>::empty(),
            final(self).req() == old(self).req(),
            final(self).err() is None,
    {
        let req = self.request_type;
        let mut fresh = Lattice::new();
        fresh.request_type = req;
        *self = fresh;
    }

    /// Install a new input and reset the graph, the constraints and the
    /// diagnostics; the request modes survive.
    pub fn set_sentence(&mut self, sentence: Vec<u8>)
        requires
            sentence@.len() <= MAX_SENTENCE_LEN,
        ensures
            final(self).wf(),
            !final(self).is_built(),
            final(self).sen() == sentence@,
            final(self).bnd().len() == sentence@.len() + 1,
            forall|p: int|
                0 <= p < final(self).bnd().len() ==> final(self).bnd()[p] == BoundaryType::Any,
            final(self).fc() == Seq::<FcView>::empty(),
            final(self).req() == old(self).req(),
            final(self).err() is None,
    {
        self.clear();
        let n = sentence.len();
        let mut boundaries: Vec<BoundaryType> = Vec::new();
        let mut i: usize = 0;
        while i < n + 1
            invariant
                0 <= i <= n + 1,
                n <= MAX_SENTENCE_LEN,
                boundaries@.len() == i,
                forall|p: int| 0 <= p < i ==> boundaries@[p] == BoundaryType::Any,
            decreases n + 1 - i,
        {
            boundaries.push(BoundaryType::Any);
            i += 1;
        }
        self.sentence = sentence;
        self.boundaries = boundaries;
    }

    /// The input bytes.
    pub fn sentence(&self) -> (r: &Vec<u8>)
        ensures
            r@ == self.sen(),
    {
        &self.sentence
    }

    /// The byte length of the current input.
    pub fn size(&self) -> (r: usize)
        ensures
            r == self.sen().len(),
    {
        self.sentence.len()
    }

    /// How many nodes the last build created.
    pub fn node_count(&self) -> (r: usize)
        ensures
            r == self.graph().nodes.len(),
    {
        self.nodes.len()
    }

    /// Whether a built graph is present to query.
    pub fn is_available(&self) -> (r: bool)
        ensures
            r == self.is_built(),
    {
        self.built
    }

    /// The current request-mode flag set.
    pub fn request_type(&self) -> (r: i32)
        ensures
            r as int == self.req(),
    {
        self.request_type
    }

    /// Whether any mode bit in `request_type` is set.
    pub fn has_request_type(&self, request_type: i32) -> (r: bool)
        ensures
            r == ((self.req() as i32 & request_type) != 0),
    {
        (self.request_type & request_type) != 0
    }

    /// Everything but the request modes is as it was.
    pub open spec fn same_but_request(pre: Lattice, post: Lattice) -> bool {
        &&& post.sen() == pre.sen()
        &&& post.bnd() == pre.bnd()
        &&& post.fc() == pre.fc()
        &&& post.is_built() == pre.is_built()
        &&& post.graph() == pre.graph()
        &&& post.err() == pre.err()
        &&& post.wf() == pre.wf()
    }

    /// Replace the whole request-mode flag set.
    pub fn set_request_type(&mut self, request_type: i32)
        ensures
            final(self).req() == request_type as int,
            Lattice::same_but_request(*old(self), *final(self)),
    {
        self.request_type = request_type;
    }

    /// Set the given mode bits, keeping the others.
    pub fn add_request_type(&mut self, request_type: i32)
        ensures
            final(self).req() == (old(self).req() as i32 | request_type) as int,
            Lattice::same_but_request(*old(self), *final(self)),
    {
        self.request_type = self.request_type | request_type;
    }

    /// Clear the given mode bits, keeping the others.
    pub fn remove_request_type(&mut self, request_type: i32)
        ensures
            final(self).req() == (old(self).req() as i32 & !request_type) as int,
            Lattice::same_but_request(*old(self), *final(self)),
    {
        self.request_type = self.request_type & !request_type;
    }

    /// The diagnostic left by the last failed build or search, if any.
    pub fn last_error(&self) -> (r: Option<MecabError>)
        ensures
            r == self.err(),
    {
        self.last_error
    }

    /// Record a boundary constraint at a position of the current input.
    pub fn set_boundary_constraint(&mut self, pos: usize, boundary_type: BoundaryType)
        requires
            old(self).wf(),
            pos <= old(self).sen().len(),
        ensures
            final(self).wf(),
            final(self).bnd() == old(self).bnd().update(pos as int, boundary_type),
            final(self).sen() == old(self).sen(),
            final(self).fc() == old(self).fc(),
            final(self).req() == old(self).req(),
            !final(self).is_built(),
    {
        self.boundaries.set(pos, boundary_type);
        self.built = false;
    }

    /// The boundary constraint recorded at a position.
    pub fn boundary_constraint(&self, pos: usize) -> (r: BoundaryType)
        requires
            self.wf(),
            pos <= self.sen().len(),
        ensures
            r == self.bnd()[pos as int],
    {
        self.boundaries[pos]
    }

    /// Record a forced surface/feature literal over `[begin, end)` of the
    /// current input. Whether it contradicts the other constraints is
    /// checked by the next build.
    pub fn set_feature_constraint(&mut self, begin: usize, end: usize, feature: String)
        ensures
            final(self).fc() == old(self).fc().push(
                FcView { begin: begin as int, end: end as int, feature: feature@ },
            ),
            final(self).sen() == old(self).sen(),
            final(self).bnd() == old(self).bnd(),
            final(self).req() == old(self).req(),
            !final(self).is_built(),
            old(self).wf() ==> final(self).wf(),
    {
        let ghost pre = self.fcs.deep_view();
        let ghost fv = FcView { begin: begin as int, end: end as int, feature: feature@ };
        self.fcs.push(FeatureConstraint { begin, end, feature });
        self.built = false;
        proof {
            assert(self.fcs.deep_view() =~= pre.push(fv));
        }
    }

    /// The feature constraint whose span covers `pos`, if one was recorded.
    pub fn feature_constraint(&self, pos: usize) -> (r: Option<&FeatureConstraint>)
        ensures
            match r {
                Option::Some(f) => exists|i: int|
                    0 <= i < self.fc().len() && self.fc()[i] == f@ && f@.begin <= pos < f@.end,
                Option::None => forall|i: int|
                    0 <= i < self.fc().len() ==> !((#[trigger] self.fc()[i]).begin <= pos
                        < self.fc()[i].end),
            },
    {
        let mut i: usize = 0;
        while i < self.fcs.len()
            invariant
                0 <= i <= self.fc().len(),
                forall|j: int|
                    0 <= j < i ==> !((#[trigger] self.fc()[j]).begin <= pos < self.fc()[j].end),
            decreases self.fc().len() - i,
        {
            let f = &self.fcs[i];
            if f.begin <= pos && pos < f.end {
                proof {
                    assert(self.fc()[i as int] == f@);
                }
                return Option::Some(f);
            }
            i += 1;
        }
        Option::None
    }

    /// Whether any constraint was recorded for the next build.
    pub fn has_constraint(&self) -> (r: bool)
        requires
            self.wf(),
        ensures
            r == (self.fc().len() > 0 || exists|p: int|
                0 <= p < self.bnd().len() && self.bnd()[p] != BoundaryType::Any),
    {
        if self.fcs.len() > 0 {
            return true;
        }
        let mut p: usize = 0;
        while p < self.boundaries.len()
            invariant
                0 <= p <= self.bnd().len(),
                forall|q: int| 0 <= q < p ==> self.bnd()[q] == BoundaryType::Any,
            decreases self.bnd().len() - p,
        {
            if !matches!(self.boundaries[p], BoundaryType::Any) {
                return true;
            }
            p += 1;
        }
        false
    }

    /// Build the node graph for the current input under the current
    /// constraints: scan every position, query the dictionary, honor the
    /// constraint set, and close the graph with the two synthetic nodes.
    pub fn build(&mut self, model: &Model) -> (r: Result<(), MecabError>)
        requires
            old(self).wf(),
        ensures
            final(self).wf(),
            final(self).sen() == old(self).sen(),
            final(self).bnd() == old(self).bnd(),
            final(self).fc() == old(self).fc(),
            final(self).req() == old(self).req(),
            ({
                let m = model@;
                let sen = old(self).sen();
                let bnd = old(self).bnd();
                let fcs = old(self).fc();
                let len = sen.len() as int;
                match r {
                    Result::Ok(()) => {
                        &&& m.loaded
                        &&& constraints_ok(bnd, len, fcs)
                        &&& forall|p: int| !bad_pos(m, sen, bnd, fcs, p)
                        &&& final(self).is_built()
                        &&& final(self).err() is None
                        &&& final(self).graph().len == len
                        &&& final(self).graph().bos == 0
                        &&& final(self).graph().eos == final(self).graph().nodes.len() - 1
                        &&& final(self).graph().nodes == built_nodes(m, sen, bnd, fcs)
                        &&& wf_graph(final(self).graph())
                        &&& ids_in_model(final(self).graph().nodes, m)
                    },
                    Result::Err(e) => {
                        &&& !final(self).is_built()
                        &&& final(self).err() == Option::Some(e)
                        &&& match e {
                            MecabError::DictionaryUnavailable => !m.loaded,
                            MecabError::ConstraintConflict { begin, end } => {
                                &&& m.loaded
                                &&& exists|i: int|
                                    0 <= i < fcs.len() && (#[trigger] fcs[i]).begin == begin && fcs[
                                        i
                                    ].end == end && fc_conflicts(bnd, len, fcs, i)
                            },
                            MecabError::LatticeConstructionError { pos } => {
                                &&& m.loaded
                                &&& constraints_ok(bnd, len, fcs)
                                &&& bad_pos(m, sen, bnd, fcs, pos as int)
                                &&& forall|q: int| 0 <= q < pos ==> !bad_pos(m, sen, bnd, fcs, q)
                            },
                            _ => false,
                        }
                    },
                }
            }),
    {
        self.built = false;
        self.nodes = Vec::new();
        self.begins = Vec::new();
        self.ends = Vec::new();
        self.last_error = Option::None;
        if !model.is_available() {
            let e = MecabError::DictionaryUnavailable;
            self.last_error = Option::Some(e);
            return Result::Err(e);
        }
        let len = self.sentence.len();
        match validate_constraints(&self.boundaries, &self.fcs, len) {
            Option::Some((cb, ce)) => {
                let e = MecabError::ConstraintConflict { begin: cb, end: ce };
                self.last_error = Option::Some(e);
                return Result::Err(e);
            },
            Option::None => {},
        }
        let ghost m = model@;
        let ghost sen = self.sentence@;
        let ghost bnd = self.boundaries@;
        let ghost fcv = self.fcs.deep_view();
        let mut begins: Vec<Vec<usize>> = Vec::new();
        let mut ends: Vec<Vec<usize>> = Vec::new();
        let mut q: usize = 0;
        while q < len + 1
            invariant
                len <= MAX_SENTENCE_LEN,
                0 <= q <= len + 1,
                begins@.len() == q,
                ends@.len() == q,
                forall|x: int| 0 <= x < q ==> (#[trigger] begins@[x])@.len() == 0,
                forall|x: int| 0 <= x < q ==> (#[trigger] ends@[x])@.len() == 0,
            decreases len + 1 - q,
        {
            begins.push(Vec::new());
            ends.push(Vec::new());
            q += 1;
        }
        let mut nodes: Vec<Node> = Vec::new();
        nodes.push(
            Node {
                begin: 0,
                length: 0,
                lcattr: 0,
                rcattr: 0,
                posid: 0,
                wcost: 0,
                stat: NodeStat::Bos,
                feature: String::new(),
            },
        );
        ends[0].push(0);
        proof {
            assert(nodes.deep_view() =~= seq![bos_node_view()]);
            assert(idlists_view(ends@)[0] =~= seq![0int]);
            assert(idlists_view(ends@)[0][0] == 0int);
            assert(idlists_view(ends@)[0].contains(0int));
            assert(partial_lists_ok(
                nodes.deep_view(),
                idlists_view(begins@),
                idlists_view(ends@),
                len as int,
            ));
            assert(nodes.deep_view() + built_tail(m, sen, bnd, fcv, 0) =~= seq![bos_node_view()]
                + built_tail(m, sen, bnd, fcv, 0));
        }
        let mut p: usize = 0;
        while p < len
            invariant
                0 <= p <= len,
                len == self.sentence@.len(),
                len <= MAX_SENTENCE_LEN,
                m == model@,
                m.loaded,
                crate::dict::model_data_ok(m),
                sen == self.sentence@,
                bnd == self.boundaries@,
                fcv == self.fcs.deep_view(),
                sen == old(self).sen(),
                bnd == old(self).bnd(),
                fcv == old(self).fc(),
                self.req() == old(self).req(),
                !self.is_built(),
                bnd.len() == len + 1,
                constraints_ok(bnd, len as int, fcv),
                partial_lists_ok(
                    nodes.deep_view(),
                    idlists_view(begins@),
                    idlists_view(ends@),
                    len as int,
                ),
                ids_in_model(nodes.deep_view(), m),
                nodes.deep_view() + built_tail(m, sen, bnd, fcv, p as int) == seq![
                    bos_node_view(),
                ] + built_tail(m, sen, bnd, fcv, 0),
                forall|x: int| 0 <= x < p ==> !bad_pos(m, sen, bnd, fcv, x),
            decreases len - p,
        {
            let ghost tail_p = built_tail(m, sen, bnd, fcv, p as int);
            proof {
                assert(tail_p == nodes_at(m, sen, bnd, fcv, p as int) + built_tail(
                    m,
                    sen,
                    bnd,
                    fcv,
                    p + 1,
                ));
            }
            let eb = eff_boundary_at(&self.boundaries, &self.fcs, p);
            if matches!(eb, BoundaryType::InsideToken) {
                proof {
                    assert(nodes_at(m, sen, bnd, fcv, p as int) =~= Seq::<NodeView>::empty());
                    assert(nodes.deep_view() + built_tail(m, sen, bnd, fcv, p + 1) =~= nodes
                        .deep_view() + built_tail(m, sen, bnd, fcv, p as int));
                    assert(!bad_pos(m, sen, bnd, fcv, p as int));
                }
                p += 1;
                continue ;
            }
            match find_fc_at(&self.fcs, p) {
                Option::Some(fi) => {
                    let ghost f = fcv[fi as int];
                    proof {
                        assert(!fc_conflicts(bnd, len as int, fcv, fi as int));
                        assert(fc_span_ok(f, len as int));
                        assert(self.fcs@[fi as int]@ == f);
                    }
                    let fend = self.fcs[fi].end;
                    let feat = self.fcs[fi].feature.clone();
                    let node = Node {
                        begin: p,
                        length: fend - p,
                        lcattr: 0,
                        rcattr: 0,
                        posid: 0,
                        wcost: 0,
                        stat: NodeStat::Nor,
                        feature: feat,
                    };
                    proof {
                        assert(node@ == synth_node(f));
                    }
                    let ghost n_before = nodes.deep_view();
                    push_node(&mut nodes, &mut begins, &mut ends, node, len, Ghost(m));
                    proof {
                        assert(nodes_at(m, sen, bnd, fcv, p as int) =~= seq![synth_node(f)]);
                        assert(nodes.deep_view() + built_tail(m, sen, bnd, fcv, p + 1) =~= (
                        n_before + built_tail(m, sen, bnd, fcv, p as int)));
                        assert(!bad_pos(m, sen, bnd, fcv, p as int));
                    }
                },
                Option::None => {
                    let cands = match model.lookup(&self.sentence, p) {
                        Result::Ok(cs) => cs,
                        Result::Err(e) => {
                            proof {
                                assert(false);
                            }
                            self.last_error = Option::Some(e);
                            return Result::Err(e);
                        },
                    };
                    proof {
                        crate::dict::lemma_lookup_bounds(m, sen, p as int);
                        assert(cands.deep_view() == spec_lookup(m, sen, p as int));
                    }
                    let ghost cv = cands.deep_view();
                    let ghost base = nodes.deep_view();
                    let base_len = nodes.len();
                    let mut k: usize = 0;
                    while k < cands.len()
                        invariant
                            0 <= k <= cv.len(),
                            cv == cands.deep_view(),
                            cv == spec_lookup(m, sen, p as int),
                            forall|x: int|
                                0 <= x < cv.len() ==> crate::dict::cand_bounds_ok(
                                    #[trigger] cv[x],
                                    m,
                                    sen,
                                    p as int,
                                ),
                            0 <= p < len,
                            len == self.sentence@.len(),
                            len <= MAX_SENTENCE_LEN,
                            m == model@,
                            m.loaded,
                            crate::dict::model_data_ok(m),
                            sen == self.sentence@,
                            bnd == self.boundaries@,
                            fcv == self.fcs.deep_view(),
                            sen == old(self).sen(),
                            bnd == old(self).bnd(),
                            fcv == old(self).fc(),
                            self.req() == old(self).req(),
                            !self.is_built(),
                            constraints_ok(bnd, len as int, fcv),
                            forall|x: int| 0 <= x < p ==> !bad_pos(m, sen, bnd, fcv, x),
                            bnd.len() == len + 1,
                            partial_lists_ok(
                                nodes.deep_view(),
                                idlists_view(begins@),
                                idlists_view(ends@),
                                len as int,
                            ),
                            ids_in_model(nodes.deep_view(), m),
                            base_len == base.len(),
                            nodes.deep_view() + admissible_nodes(bnd, fcv, p as int, cv, k as int)
                                == base + admissible_nodes(bnd, fcv, p as int, cv, 0),
                        decreases cv.len() - k,
                    {
                        let c = &cands[k];
                        proof {
                            assert(cv[k as int] == cands@[k as int]@);
                            assert(crate::dict::cand_bounds_ok(cv[k as int], m, sen, p as int));
                        }
                        let ce = p + c.length;
                        if span_admissible_exec(&self.boundaries, &self.fcs, p, ce) {
                            let node = Node {
                                begin: p,
                                length: c.length,
                                lcattr: c.lcattr,
                                rcattr: c.rcattr,
                                posid: c.posid,
                                wcost: c.wcost,
                                stat: c.stat,
                                feature: c.feature.clone(),
                            };
                            proof {
                                assert(node@ == cand_node(p as int, cv[k as int]));
                            }
                            let ghost nb = nodes.deep_view();
                            push_node(&mut nodes, &mut begins, &mut ends, node, len, Ghost(m));
                            proof {
                                assert(admissible_nodes(bnd, fcv, p as int, cv, k as int) == seq![
                                    cand_node(p as int, cv[k as int]),
                                ] + admissible_nodes(bnd, fcv, p as int, cv, k + 1));
                                assert(nodes.deep_view() + admissible_nodes(
                                    bnd,
                                    fcv,
                                    p as int,
                                    cv,
                                    k + 1,
                                ) =~= nb + admissible_nodes(bnd, fcv, p as int, cv, k as int));
                            }
                        } else {
                            proof {
                                assert(admissible_nodes(bnd, fcv, p as int, cv, k as int)
                                    == admissible_nodes(bnd, fcv, p as int, cv, k + 1));
                            }
                        }
                        k += 1;
                    }
                    proof {
                        assert(admissible_nodes(bnd, fcv, p as int, cv, k as int) =~= Seq::<
                            NodeView,
                        >::empty());
                        assert(nodes.deep_view() =~= base + admissible_nodes(
                            bnd,
                            fcv,
                            p as int,
                            cv,
                            0,
                        ));
                    }
                    if nodes.len() == base_len {
                        proof {
                            assert(admissible_nodes(bnd, fcv, p as int, cv, 0).len() == 0);
                            assert(nodes_at(m, sen, bnd, fcv, p as int).len() == 0);
                            assert(bad_pos(m, sen, bnd, fcv, p as int));
                        }
                        let e = MecabError::LatticeConstructionError { pos: p };
                        self.last_error = Option::Some(e);
                        return Result::Err(e);
                    }
                    proof {
                        assert(nodes_at(m, sen, bnd, fcv, p as int) == admissible_nodes(
                            bnd,
                            fcv,
                            p as int,
                            cv,
                            0,
                        ));
                        assert(nodes.deep_view() + built_tail(m, sen, bnd, fcv, p + 1) =~= (base
                            + built_tail(m, sen, bnd, fcv, p as int)));
                        assert(!bad_pos(m, sen, bnd, fcv, p as int));
                    }
                },
            }
            p += 1;
        }
        proof {
            assert(built_tail(m, sen, bnd, fcv, p as int) =~= Seq::<NodeView>::empty());
            assert(nodes.deep_view() =~= seq![bos_node_view()] + built_tail(m, sen, bnd, fcv, 0));
        }
        let eos_id = nodes.len();
        let ghost pre_eos = nodes.deep_view();
        let ghost bg0 = idlists_view(begins@);
        let ghost en0 = idlists_view(ends@);
        nodes.push(
            Node {
                begin: len,
                length: 0,
                lcattr: 0,
                rcattr: 0,
                posid: 0,
                wcost: 0,
                stat: NodeStat::Eos,
                feature: String::new(),
            },
        );
        begins[len].push(eos_id);
        proof {
            assert(nodes.deep_view() =~= pre_eos.push(eos_node_view(len as int)));
            assert(nodes.deep_view() =~= built_nodes(m, sen, bnd, fcv));
        }
        self.nodes = nodes;
        self.begins = begins;
        self.ends = ends;
        self.built = true;
        self.last_error = Option::None;
        proof {
            let g = self.graph();
            assert(g.nodes == nodes.deep_view());
            assert(g.begins =~~= bg0.update(len as int, bg0[len as int].push(eos_id as int)));
            assert(g.ends == en0);
            assert(g.eos == eos_id);
            assert forall|id: int|
                valid_id(g, id) implies {
                &&& 0 <= (#[trigger] g.nodes[id]).begin
                &&& g.nodes[id].begin + g.nodes[id].length <= g.len
                &&& (g.nodes[id].length == 0 <==> (id == g.bos || id == g.eos))
                &&& (g.nodes[id].stat == NodeStat::Bos <==> id == g.bos)
                &&& (g.nodes[id].stat == NodeStat::Eos <==> id == g.eos)
            } by {
                if id < eos_id {
                    assert(g.nodes[id] == pre_eos[id]);
                }
            }
            assert forall|p2: int, k: int|
                0 <= p2 < g.begins.len() && 0 <= k < g.begins[p2].len() implies {
                &&& valid_id(g, #[trigger] g.begins[p2][k])
                &&& g.begins[p2][k] != g.bos
                &&& g.nodes[g.begins[p2][k]].begin == p2
            } by {
                if p2 == len as int && k == bg0[p2].len() {
                    assert(g.begins[p2][k] == eos_id as int);
                } else {
                    assert(g.begins[p2][k] == bg0[p2][k]);
                }
            }
            assert forall|p2: int, k: int|
                0 <= p2 < g.ends.len() && 0 <= k < g.ends[p2].len() implies {
                &&& valid_id(g, #[trigger] g.ends[p2][k])
                &&& g.ends[p2][k] != g.eos
                &&& node_end(g, g.ends[p2][k]) == p2
            } by {
                assert(g.ends[p2][k] == en0[p2][k]);
                assert(en0[p2][k] < eos_id as int);
            }
            assert forall|id: int|
                valid_id(g, id) && id != g.bos implies (#[trigger] g.begins[g.nodes[
                id
            ].begin]).contains(id) by {
                if id < eos_id {
                    assert(pre_eos[id].begin < len);
                    let w = choose|w: int|
                        0 <= w < bg0[pre_eos[id].begin].len() && bg0[pre_eos[id].begin][w] == id;
                    assert(g.begins[g.nodes[id].begin][w] == id);
                } else {
                    assert(g.begins[len as int][bg0[len as int].len() as int] == id);
                }
            }
            assert forall|id: int|
                valid_id(g, id) && id != g.eos implies (#[trigger] g.ends[node_end(
                g,
                id,
            )]).contains(id) by {
                assert(g.nodes[id] == pre_eos[id]);
                assert(en0[pre_eos[id].begin + pre_eos[id].length].contains(id));
            }
            assert forall|p2: int| 0 <= p2 < g.begins.len() implies id_list_sorted(
                #[trigger] g.begins[p2],
            ) by {
                if p2 == len as int {
                    assert forall|k1: int, k2: int|
                        0 <= k1 < k2 < g.begins[p2].len() implies g.begins[p2][k1]
                        < g.begins[p2][k2] by {
                        if k2 == bg0[p2].len() {
                            assert(g.begins[p2][k1] == bg0[p2][k1]);
                            assert(bg0[p2][k1] < eos_id as int);
                        }
                    }
                }
            }
            assert(wf_graph(g));
        }
        Result::Ok(())
    }

    /// What a built, well-formed lattice guarantees about its graph.
    pub proof fn lemma_graph_wf(&self)
        requires
            self.wf(),
            self.is_built(),
        ensures
            wf_graph(self.graph()),
            self.graph().len == self.sen().len(),
            0 <= self.graph().len <= MAX_SENTENCE_LEN,
            self.graph().bos == 0,
            self.graph().eos == self.graph().nodes.len() - 1,
    {
    }

    /// The id of the begin-of-sentence node.
    pub fn bos_node(&self) -> (r: usize)
        ensures
            r as int == self.graph().bos,
    {
        0
    }

    /// The id of the end-of-sentence node.
    pub fn eos_node(&self) -> (r: usize)
        requires
            self.wf(),
            self.is_built(),
        ensures
            r as int == self.graph().eos,
    {
        self.nodes.len() - 1
    }

    /// The node with the given id.
    pub fn node_at(&self, id: usize) -> (r: &Node)
        requires
            id < self.graph().nodes.len(),
        ensures
            r@ == self.graph().nodes[id as int],
    {
        &self.nodes[id]
    }

    /// The ids of the nodes beginning at `pos`, in creation order.
    pub fn begin_nodes(&self, pos: usize) -> (r: &Vec<usize>)
        requires
            self.wf(),
            self.is_built(),
            pos <= self.graph().len,
        ensures
            r@.len() == self.graph().begins[pos as int].len(),
            forall|k: int| 0 <= k < r@.len() ==> #[trigger] r@[k] as int == self.graph().begins[
                pos as int
            ][k],
    {
        &self.begins[pos]
    }

    /// The ids of the nodes ending at `pos`, in creation order.
    pub fn end_nodes(&self, pos: usize) -> (r: &Vec<usize>)
        requires
            self.wf(),
            self.is_built(),
            pos <= self.graph().len,
        ensures
            r@.len() == self.graph().ends[pos as int].len(),
            forall|k: int| 0 <= k < r@.len() ==> #[trigger] r@[k] as int == self.graph().ends[
                pos as int
            ][k],
    {
        &self.ends[pos]
    }

    /// Record the outcome of an analysis phase for later diagnosis; the
    /// graph and every other part of the lattice stay as they were. The
    /// search phases record through this themselves; a caller running a
    /// phase outside the verified core (the marginal-probability phase)
    /// records its outcome the same way.
    pub fn note_error(&mut self, e: Option<MecabError>)
        ensures
            final(self).err() == e,
            final(self).sen() == old(self).sen(),
            final(self).bnd() == old(self).bnd(),
            final(self).fc() == old(self).fc(),
            final(self).req() == old(self).req(),
            final(self).is_built() == old(self).is_built(),
            final(self).graph() == old(self).graph(),
            final(self).wf() == old(self).wf(),
    {
        self.last_error = e;
    }

    /// The text [`Lattice::what`] returns for each diagnostic state.
    pub open spec fn what_text(e: Option<MecabError>) -> Seq<char> {
        match e {
            Option::None => ""@,
            Option::Some(MecabError::DictionaryUnavailable) => "dictionary unavailable"@,
            Option::Some(MecabError::LatticeConstructionError { .. }) => {
                "no candidate node at a position"@
            },
            Option::Some(MecabError::ConstraintConflict { .. }) => {
                "constraints contradict each other"@
            },
            Option::Some(MecabError::Unconnected) => "end of sentence is unreachable"@,
            Option::Some(MecabError::InvalidCategoryId { .. }) => {
                "context category id out of range"@
            },
            Option::Some(MecabError::NumericOverflow) => "partition value is not finite"@,
        }
    }

    /// A short description of the last recorded error, empty after success.
    pub fn what(&self) -> (r: String)
        ensures
            r@ == Lattice::what_text(self.err()),
    {
        match self.last_error {
            Option::None => "".to_owned(),
            Option::Some(MecabError::DictionaryUnavailable) => "dictionary unavailable".to_owned(),
            Option::Some(MecabError::LatticeConstructionError { .. }) => {
                "no candidate node at a position".to_owned()
            },
            Option::Some(MecabError::ConstraintConflict { .. }) => {
                "constraints contradict each other".to_owned()
            },
            Option::Some(MecabError::Unconnected) => {
                "end of sentence is unreachable".to_owned()
            },
            Option::Some(MecabError::InvalidCategoryId { .. }) => {
                "context category id out of range".to_owned()
            },
            Option::Some(MecabError::NumericOverflow) => {
                "partition value is not finite".to_owned()
            },
        }
    }
}

/// The boundary restriction in force at `p`, feature constraints folded in.
fn eff_boundary_at(bnd: &Vec<BoundaryType>, fcs: &Vec<FeatureConstraint>, p: usize) -> (r:
    BoundaryType)
    requires
        p < bnd@.len(),
    ensures
        r == eff_bnd(bnd@, fcs.deep_view(), p as int),
{
    let mut inside = false;
    let mut edge = false;
    let mut i: usize = 0;
    while i < fcs.len()
        invariant
            0 <= i <= fcs.deep_view().len(),
            inside == exists|j: int|
                0 <= j < i && (#[trigger] fcs.deep_view()[j]).begin < p < fcs.deep_view()[j].end,
            edge == exists|j: int|
                0 <= j < i && ((#[trigger] fcs.deep_view()[j]).begin == p || fcs.deep_view()[
                    j
                ].end == p),
        decreases fcs.deep_view().len() - i,
    {
        let f = &fcs[i];
        proof {
            assert(fcs.deep_view()[i as int] == fcs@[i as int]@);
        }
        if f.begin < p && p < f.end {
            inside = true;
        }
        if f.begin == p || f.end == p {
            edge = true;
        }
        i += 1;
    }
    proof {
        assert(inside == strictly_inside_fc(fcs.deep_view(), p as int));
        assert(edge == at_fc_edge(fcs.deep_view(), p as int));
    }
    if inside {
        BoundaryType::InsideToken
    } else if matches!(bnd[p], BoundaryType::InsideToken) {
        BoundaryType::InsideToken
    } else if edge || matches!(bnd[p], BoundaryType::TokenBoundary) {
        BoundaryType::TokenBoundary
    } else {
        BoundaryType::Any
    }
}

/// The index of the first feature constraint beginning exactly at `p`.
fn find_fc_at(fcs: &Vec<FeatureConstraint>, p: usize) -> (r: Option<usize>)
    ensures
        match r {
            Option::Some(i) => 0 <= i < fcs.deep_view().len() && fcs.deep_view()[
                i as int
            ].begin == p && find_fc(fcs.deep_view(), p as int) == Option::Some(
                fcs.deep_view()[i as int],
            ),
            Option::None => find_fc(fcs.deep_view(), p as int) is None,
        },
{
    let mut i: usize = 0;
    while i < fcs.len()
        invariant
            0 <= i <= fcs.deep_view().len(),
            find_fc_from(fcs.deep_view(), p as int, 0) == find_fc_from(
                fcs.deep_view(),
                p as int,
                i as int,
            ),
        decreases fcs.deep_view().len() - i,
    {
        let f = &fcs[i];
        proof {
            assert(fcs.deep_view()[i as int] == fcs@[i as int]@);
        }
        if f.begin == p {
            return Option::Some(i);
        }
        i += 1;
    }
    Option::None
}

/// Whether a node spanning `[b, e)` honors the boundary restrictions.
fn span_admissible_exec(
    bnd: &Vec<BoundaryType>,
    fcs: &Vec<FeatureConstraint>,
    b: usize,
    e: usize,
) -> (r: bool)
    requires
        b <= e < bnd@.len(),
    ensures
        r == span_admissible(bnd@, fcs.deep_view(), b as int, e as int),
{
    let n = bnd.len();
    if matches!(eff_boundary_at(bnd, fcs, e), BoundaryType::InsideToken) {
        return false;
    }
    let mut q: usize = b + 1;
    while q < e
        invariant
            b + 1 <= q <= e || (q == b + 1 && e <= b),
            e < bnd@.len(),
            forall|x: int|
                b < x < q ==> eff_bnd(bnd@, fcs.deep_view(), x) != BoundaryType::TokenBoundary,
        decreases e - q,
    {
        if matches!(eff_boundary_at(bnd, fcs, q), BoundaryType::TokenBoundary) {
            return false;
        }
        q += 1;
    }
    true
}

/// Append a freshly created node to the arena and to the two adjacency
/// lists its span belongs to.
fn push_node(
    nodes: &mut Vec<Node>,
    begins: &mut Vec<Vec<usize>>,
    ends: &mut Vec<Vec<usize>>,
    node: Node,
    len: usize,
    m: Ghost<ModelView>,
) -> (id: usize)
    requires
        partial_lists_ok(
            old(nodes).deep_view(),
            idlists_view(old(begins)@),
            idlists_view(old(ends)@),
            len as int,
        ),
        ids_in_model(old(nodes).deep_view(), m@),
        1 <= node@.length,
        node@.begin + node@.length <= len,
        node@.stat == NodeStat::Nor || node@.stat == NodeStat::Unk,
        node@.lcattr < m@.lsize,
        node@.rcattr < m@.rsize,
    ensures
        final(nodes).deep_view() == old(nodes).deep_view().push(node@),
        id == old(nodes).deep_view().len(),
        partial_lists_ok(
            final(nodes).deep_view(),
            idlists_view(final(begins)@),
            idlists_view(final(ends)@),
            len as int,
        ),
        ids_in_model(final(nodes).deep_view(), m@),
{
    let ghost n0 = nodes.deep_view();
    let ghost bg0 = idlists_view(begins@);
    let ghost en0 = idlists_view(ends@);
    let b = node.begin;
    let e = node.begin + node.length;
    let ghost nv = node@;
    let id = nodes.len();
    nodes.push(node);
    proof {
        assert(nodes.deep_view() =~= n0.push(nv));
    }
    begins[b].push(id);
    proof {
        assert(idlists_view(begins@) =~~= bg0.update(b as int, bg0[b as int].push(id as int)));
    }
    ends[e].push(id);
    proof {
        assert(idlists_view(ends@) =~~= en0.update(e as int, en0[e as int].push(id as int)));
        let n1 = nodes.deep_view();
        let bg1 = idlists_view(begins@);
        let en1 = idlists_view(ends@);
        assert forall|p: int, k: int|
            0 <= p < bg1.len() && 0 <= k < bg1[p].len() implies {
            &&& 1 <= #[trigger] bg1[p][k] < n1.len()
            &&& n1[bg1[p][k]].begin == p
        } by {
            if p == b as int && k == bg0[p].len() {
                assert(bg1[p][k] == id as int);
            } else {
                assert(bg1[p][k] == bg0[p][k]);
            }
        }
        assert forall|p: int, k: int|
            0 <= p < en1.len() && 0 <= k < en1[p].len() implies {
            &&& 0 <= #[trigger] en1[p][k] < n1.len()
            &&& n1[en1[p][k]].begin + n1[en1[p][k]].length == p
        } by {
            if p == e as int && k == en0[p].len() {
                assert(en1[p][k] == id as int);
            } else {
                assert(en1[p][k] == en0[p][k]);
            }
        }
        assert forall|x: int| 1 <= x < n1.len() implies (#[trigger] bg1[n1[x].begin]).contains(
            x,
        ) by {
            if x < id {
                let w = choose|w: int| 0 <= w < bg0[n0[x].begin].len() && bg0[n0[x].begin][w] == x;
                assert(bg1[n1[x].begin][w] == x);
            } else {
                assert(bg1[b as int][bg0[b as int].len() as int] == x);
            }
        }
        assert forall|x: int| 0 <= x < n1.len() implies (#[trigger] en1[n1[x].begin
            + n1[x].length]).contains(x) by {
            if x < id {
                let p0 = n0[x].begin + n0[x].length;
                let w = choose|w: int| 0 <= w < en0[p0].len() && en0[p0][w] == x;
                assert(en1[p0][w] == x);
            } else {
                assert(en1[e as int][en0[e as int].len() as int] == x);
            }
        }
        assert forall|p: int| 0 <= p < bg1.len() implies id_list_sorted(#[trigger] bg1[p]) by {
            if p == b as int {
                assert forall|k1: int, k2: int| 0 <= k1 < k2 < bg1[p].len() implies bg1[p][k1]
                    < bg1[p][k2] by {
                    if k2 == bg0[p].len() {
                        assert(bg1[p][k1] == bg0[p][k1]);
                        assert(bg0[p][k1] < id as int);
                    }
                }
            }
        }
        assert forall|p: int| 0 <= p < en1.len() implies id_list_sorted(#[trigger] en1[p]) by {
            if p == e as int {
                assert forall|k1: int, k2: int| 0 <= k1 < k2 < en1[p].len() implies en1[p][k1]
                    < en1[p][k2] by {
                    if k2 == en0[p].len() {
                        assert(en1[p][k1] == en0[p][k1]);
                        assert(en0[p][k1] < id as int);
                    }
                }
            }
        }
        assert(partial_lists_ok(n1, bg1, en1, len as int));
    }
    id
}

/// Check the constraint set for self-consistency; hand back the span of
/// an offending feature constraint if there is one.
fn validate_constraints(bnd: &Vec<BoundaryType>, fcs: &Vec<FeatureConstraint>, len: usize) -> (r:
    Option<(usize, usize)>)
    requires
        bnd@.len() == len + 1,
    ensures
        match r {
            Option::None => constraints_ok(bnd@, len as int, fcs.deep_view()),
            Option::Some((b, e)) => {
                &&& !constraints_ok(bnd@, len as int, fcs.deep_view())
                &&& exists|i: int|
                    0 <= i < fcs.deep_view().len() && (#[trigger] fcs.deep_view()[i]).begin == b
                        && fcs.deep_view()[i].end == e && fc_conflicts(
                        bnd@,
                        len as int,
                        fcs.deep_view(),
                        i,
                    )
            },
        },
{
    let ghost fv = fcs.deep_view();
    let mut i: usize = 0;
    while i < fcs.len()
        invariant
            0 <= i <= fv.len(),
            fv == fcs.deep_view(),
            bnd@.len() == len + 1,
            forall|j: int| 0 <= j < i ==> !fc_conflicts(bnd@, len as int, fv, j),
        decreases fv.len() - i,
    {
        let f = &fcs[i];
        proof {
            assert(fv[i as int] == fcs@[i as int]@);
        }
        if !(f.begin < f.end && f.end <= len) {
            proof {
                assert(fc_conflicts(bnd@, len as int, fv, i as int));
            }
            return Option::Some((f.begin, f.end));
        }
        if matches!(bnd[f.begin], BoundaryType::InsideToken) || matches!(
            bnd[f.end],
            BoundaryType::InsideToken,
        ) {
            proof {
                assert(fc_conflicts(bnd@, len as int, fv, i as int));
            }
            return Option::Some((f.begin, f.end));
        }
        let mut p: usize = f.begin + 1;
        while p < f.end
            invariant
                f.begin + 1 <= p <= f.end,
                f.end <= len,
                bnd@.len() == len + 1,
                fv == fcs.deep_view(),
                0 <= i < fv.len(),
                fv[i as int] == f@,
                forall|x: int| f.begin < x < p ==> bnd@[x] != BoundaryType::TokenBoundary,
            decreases f.end - p,
        {
            if matches!(bnd[p], BoundaryType::TokenBoundary) {
                proof {
                    assert(f.begin < p < f.end && bnd@[p as int] == BoundaryType::TokenBoundary);
                    assert(fc_conflicts(bnd@, len as int, fv, i as int));
                }
                return Option::Some((f.begin, f.end));
            }
            p += 1;
        }
        let mut j: usize = 0;
        while j < fcs.len()
            invariant
                0 <= j <= fv.len(),
                fv == fcs.deep_view(),
                0 <= i < fv.len(),
                f == fcs@[i as int],
                fv[i as int] == fcs@[i as int]@,
                forall|y: int| 0 <= y < j && y != i ==> !fcs_overlap(fv[i as int], #[trigger] fv[y]),
            decreases fv.len() - j,
        {
            if j != i {
                let o = &fcs[j];
                proof {
                    assert(fv[j as int] == fcs@[j as int]@);
                }
                if f.begin < o.end && o.begin < f.end {
                    proof {
                        assert(fcs_overlap(fv[i as int], fv[j as int]));
                        assert(fc_conflicts(bnd@, len as int, fv, i as int));
                    }
                    return Option::Some((f.begin, f.end));
                }
            }
            j += 1;
        }
        i += 1;
    }
    Option::None
}

} // verus!
