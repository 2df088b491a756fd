//! The road network: edges with polyline geometry, typed node ids, and
//! dense, stable id-to-index mappings for nodes and edges.

use vstd::prelude::*;

use crate::algorithm::{wf_polyline, Line, Point};
use crate::MMError;
use crate::MAX_EDGE_LENGTH;

verus! {

/// Key of a virtual node: the projection point of one GPS sample onto one
/// edge, together with the sample itself.  Distinct samples get distinct
/// keys, so virtual nodes never collide across samples or trajectories.
#[derive(Clone, Copy, Debug, PartialEq, Eq, Structural)]
pub struct DummyKey {
    /// Projection (closest point) coordinates.
    pub px: i64,
    pub py: i64,
    /// Sample coordinates.
    pub sx: i64,
    pub sy: i64,
}

/// A node of the road network: either a loaded (real) node or a virtual
/// node inserted for one candidate projection.
#[derive(Clone, Copy, Debug, PartialEq, Eq, Structural)]
pub enum NodeId {
    Real(u64),
    Dummy(DummyKey),
}

/// Whether an edge was loaded from the network or inserted during matching.
#[derive(Clone, Copy, Debug, PartialEq, Eq, Structural)]
pub enum EdgeType {
    Real,
    Dummy,
}

/// A directed road segment.
#[derive(Debug)]
pub struct Edge {
    /// Unique among the real edges of a network.
    pub id: u64,
    pub from: NodeId,
    pub to: NodeId,
    /// Planar length of `geometry`, or an override for virtual edges.
    pub length: u64,
    /// The length as loaded, preserved across virtual-edge construction.
    pub ori_length: u64,
    pub edge_type: EdgeType,
    /// Display name; may be empty.
    pub name: String,
    pub geometry: Line,
}

/// Well-formedness of an edge: usable geometry and a routable length.
pub open spec fn wf_edge(e: &Edge) -> bool {
    &&& e.geometry.0@.len() >= 2
    &&& wf_polyline(e.geometry.0@)
    &&& crate::algorithm::polyline_len(e.geometry.0@) <= MAX_EDGE_LENGTH as int
    &&& e.length <= MAX_EDGE_LENGTH
}

/// The fields of `a` hold the same values as the fields of `b`.
pub open spec fn edge_eq(a: &Edge, b: &Edge) -> bool {
    &&& a.id == b.id
    &&& a.from == b.from
    &&& a.to == b.to
    &&& a.length == b.length
    &&& a.ori_length == b.ori_length
    &&& a.edge_type == b.edge_type
    &&& a.name@ == b.name@
    &&& a.geometry.0@ == b.geometry.0@
}

/// Copies a vector of points.
pub fn copy_points(v: &Vec<Point>) -> (r: Vec<Point>)
    ensures
        r@ == v@,
{
    let mut r: Vec<Point> = Vec::new();
    let mut i: usize = 0;
    while i < v.len()
        invariant
            0 <= i <= v.len(),
            r@ == v@.subrange(0, i as int),
        decreases v.len() - i,
    {
        r.push(v[i]);
        i = i + 1;
    }
    proof {
        assert(r@ =~= v@);
    }
    r
}

impl Edge {
    pub fn new(
        id: u64,
        from: NodeId,
        to: NodeId,
        length: u64,
        ori_length: u64,
        edge_type: EdgeType,
        name: String,
        geometry: Line,
    ) -> (r: Edge)
        ensures
            r.id == id,
            r.from == from,
            r.to == to,
            r.length == length,
            r.ori_length == ori_length,
            r.edge_type == edge_type,
            r.name == name,
            r.geometry == geometry,
    {
        Edge { id, from, to, length, ori_length, edge_type, name, geometry }
    }

    /// A field-for-field copy of this edge.
    pub fn duplicate(&self) -> (r: Edge)
        ensures
            edge_eq(&r, self),
    {
        Edge {
            id: self.id,
            from: self.from,
            to: self.to,
            length: self.length,
            ori_length: self.ori_length,
            edge_type: self.edge_type,
            name: self.name.clone(),
            geometry: Line(copy_points(&self.geometry.0)),
        }
    }

    pub fn get_from_node(&self) -> (r: NodeId)
        ensures
            r == self.from,
    {
        self.from
    }

    pub fn get_edge_id(&self) -> (r: u64)
        ensures
            r == self.id,
    {
        self.id
    }

    pub fn get_to_node(&self) -> (r: NodeId)
        ensures
            r == self.to,
    {
        self.to
    }

    pub fn get_length(&self) -> (r: u64)
        ensures
            r == self.length,
    {
        self.length
    }

    pub fn get_geometry(&self) -> (r: &Line)
        ensures
            r == &self.geometry,
    {
        &self.geometry
    }

    /// Overrides the length this edge was loaded with.
    pub fn set_ori_length(&mut self, v: u64)
        ensures
            final(self).ori_length == v,
            final(self).id == old(self).id,
            final(self).from == old(self).from,
            final(self).to == old(self).to,
            final(self).length == old(self).length,
            final(self).edge_type == old(self).edge_type,
            final(self).name == old(self).name,
            final(self).geometry == old(self).geometry,
    {
        self.ori_length = v;
    }

    /// The axis-aligned bounding rectangle of the geometry, as its
    /// south-west and north-east corners.
    pub fn get_geom_rect(&self) -> (r: Result<(Point, Point), MMError>)
        requires
            self.geometry.0@.len() >= 1,
        ensures
            r matches Ok(rect) ==> rect_bounds(
                rect.0.x,
                rect.0.y,
                rect.1.x,
                rect.1.y,
                self.geometry.0@,
            ),
            r.is_ok(),
    {
        let ps = &self.geometry.0;
        let mut min_x: i64 = ps[0].x;
        let mut max_x: i64 = ps[0].x;
        let mut min_y: i64 = ps[0].y;
        let mut max_y: i64 = ps[0].y;
        let mut i: usize = 1;
        while i < ps.len()
            invariant
                1 <= i <= ps.len(),
                ps == &self.geometry.0,
                ps@.len() >= 1,
                forall|j: int|
                    0 <= j < i ==> {
                        &&& min_x <= #[trigger] ps@[j].x <= max_x
                        &&& min_y <= ps@[j].y <= max_y
                    },
                exists|j: int| 0 <= j < i && #[trigger] ps@[j].x == min_x,
                exists|j: int| 0 <= j < i && #[trigger] ps@[j].x == max_x,
                exists|j: int| 0 <= j < i && #[trigger] ps@[j].y == min_y,
                exists|j: int| 0 <= j < i && #[trigger] ps@[j].y == max_y,
            decreases ps.len() - i,
        {
            if ps[i].x < min_x {
                min_x = ps[i].x;
            }
            if ps[i].x > max_x {
                max_x = ps[i].x;
            }
            if ps[i].y < min_y {
                min_y = ps[i].y;
            }
            if ps[i].y > max_y {
                max_y = ps[i].y;
            }
            i = i + 1;
        }
        Ok((Point { x: min_x, y: min_y }, Point { x: max_x, y: max_y }))
    }
}

/// Is the rectangle the axis-aligned bounding box of the polyline?
pub open spec fn rect_bounds(min_x: i64, min_y: i64, max_x: i64, max_y: i64, ps: Seq<Point>) -> bool {
    &&& forall|i: int|
        0 <= i < ps.len() ==> {
            &&& min_x <= (#[trigger] ps[i]).x <= max_x
            &&& min_y <= ps[i].y <= max_y
        }
    &&& exists|i: int| 0 <= i < ps.len() && (#[trigger] ps[i]).x == min_x
    &&& exists|i: int| 0 <= i < ps.len() && (#[trigger] ps[i]).x == max_x
    &&& exists|i: int| 0 <= i < ps.len() && (#[trigger] ps[i]).y == min_y
    &&& exists|i: int| 0 <= i < ps.len() && (#[trigger] ps[i]).y == max_y
}

/// Does a sequence of node ids contain `id`?
pub open spec fn contains_node(s: Seq<NodeId>, id: NodeId) -> bool {
    exists|i: int| 0 <= i < s.len() && s[i] == id
}

/// Appending a node keeps every node that was already there, and adds
/// the appended one.
pub proof fn lemma_contains_push(s: Seq<NodeId>, v: NodeId, id: NodeId)
    requires
        contains_node(s, id) || v == id,
    ensures
        contains_node(s.push(v), id),
{
    if contains_node(s, id) {
        let j = choose|j: int| 0 <= j < s.len() && s[j] == id;
        assert(s.push(v)[j] == id);
    } else {
        assert(s.push(v)[s.len() as int] == id);
    }
}

/// Does a sequence of edges contain one with id `id`?
pub open spec fn contains_edge_id(s: Seq<Edge>, id: u64) -> bool {
    exists|i: int| 0 <= i < s.len() && s[i].id == id
}

/// Appending an edge keeps every id that was already there, and adds
/// the appended one's.
pub proof fn lemma_contains_edge_push(s: Seq<Edge>, v: Edge, id: u64)
    requires
        contains_edge_id(s, id) || v.id == id,
    ensures
        contains_edge_id(s.push(v), id),
{
    if contains_edge_id(s, id) {
        let j = choose|j: int| 0 <= j < s.len() && s[j].id == id;
        assert(s.push(v)[j].id == id);
    } else {
        assert(s.push(v)[s.len() as int].id == id);
    }
}

/// The road network: edges and nodes, with indices as stable handles.
pub struct Network {
    pub edges: Vec<Edge>,
    pub nodes: Vec<NodeId>,
}

impl Network {
    /// Network invariant: ids are unique, and every edge endpoint is a
    /// known node.
    pub open spec fn wf(&self) -> bool {
        &&& forall|i: int, j: int|
            0 <= i < j < self.nodes@.len() ==> self.nodes@[i] != self.nodes@[j]
        &&& forall|i: int, j: int|
            0 <= i < j < self.edges@.len() ==> self.edges@[i].id != self.edges@[j].id
        &&& forall|i: int|
            0 <= i < self.edges@.len() ==> {
                &&& contains_node(self.nodes@, #[trigger] self.edges@[i].from)
                &&& contains_node(self.nodes@, self.edges@[i].to)
                &&& wf_edge(&self.edges@[i])
            }
    }

    /// An empty network.
    pub fn new() -> (r: Network)
        ensures
            r.wf(),
            r.edges@.len() == 0,
            r.nodes@.len() == 0,
    {
        Network { edges: Vec::new(), nodes: Vec::new() }
    }

    pub fn find_edge_by_index(&self, index: usize) -> (r: Option<Edge>)
        ensures
            index < self.edges@.len() ==> (r matches Some(e) && edge_eq(
                &e,
                &self.edges@[index as int],
            )),
            index >= self.edges@.len() ==> r is None,
    {
        if index < self.edges.len() {
            Some(self.edges[index].duplicate())
        } else {
            None
        }
    }

    pub fn find_edge_by_id(&self, id: u64) -> (r: Option<Edge>)
        ensures
            r matches Some(e) ==> exists|i: int|
                0 <= i < self.edges@.len() && #[trigger] self.edges@[i].id == id && edge_eq(
                    &e,
                    &self.edges@[i],
                ),
            r is None ==> !contains_edge_id(self.edges@, id),
    {
        let mut i: usize = 0;
        while i < self.edges.len()
            invariant
                0 <= i <= self.edges@.len(),
                forall|j: int| 0 <= j < i ==> #[trigger] self.edges@[j].id != id,
            decreases self.edges@.len() - i,
        {
            if self.edges[i].id == id {
                return Some(self.edges[i].duplicate());
            }
            i = i + 1;
        }
        None
    }

    pub fn find_node_by_index(&self, index: usize) -> (r: Option<NodeId>)
        ensures
            index < self.nodes@.len() ==> r == Some(self.nodes@[index as int]),
            index >= self.nodes@.len() ==> r is None,
    {
        if index < self.nodes.len() {
            Some(self.nodes[index])
        } else {
            None
        }
    }

    pub fn find_node_by_id(&self, id: &NodeId) -> (r: Option<usize>)
        ensures
            r matches Some(i) ==> i < self.nodes@.len() && self.nodes@[i as int] == *id,
            r is None ==> !contains_node(self.nodes@, *id),
    {
        let mut i: usize = 0;
        while i < self.nodes.len()
            invariant
                0 <= i <= self.nodes@.len(),
                forall|j: int| 0 <= j < i ==> self.nodes@[j] != *id,
            decreases self.nodes@.len() - i,
        {
            if self.nodes[i] == *id {
                return Some(i);
            }
            i = i + 1;
        }
        None
    }

    /// Adds a node; fails with `DuplicateId` when the id is already taken.
    pub fn add_node(&mut self, node: NodeId) -> (r: Result<usize, MMError>)
        requires
            old(self).wf(),
        ensures
            final(self).wf(),
            final(self).edges@ == old(self).edges@,
            contains_node(old(self).nodes@, node) ==> {
                &&& r == Err::<usize, MMError>(MMError::DuplicateId)
                &&& final(self).nodes@ == old(self).nodes@
            },
            !contains_node(old(self).nodes@, node) ==> {
                &&& r == Ok::<usize, MMError>(old(self).nodes@.len() as usize)
                &&& final(self).nodes@ == old(self).nodes@.push(node)
            },
    {
        match self.find_node_by_id(&node) {
            Some(_) => Err(MMError::DuplicateId),
            None => {
                let idx = self.nodes.len();
                self.nodes.push(node);
                proof {
                    let s = old(self).nodes@;
                    assert forall|i: int| 0 <= i < self.edges@.len() implies contains_node(
                        self.nodes@,
                        #[trigger] self.edges@[i].from,
                    ) && contains_node(self.nodes@, self.edges@[i].to) by {
                        lemma_contains_push(s, node, self.edges@[i].from);
                        lemma_contains_push(s, node, self.edges@[i].to);
                    }
                }
                Ok(idx)
            },
        }
    }

    /// Adds an edge; fails with `DuplicateId` when the id is already
    /// taken.  Both endpoints must already be known nodes.
    pub fn add_edge(&mut self, edge: Edge) -> (r: Result<usize, MMError>)
        requires
            old(self).wf(),
            wf_edge(&edge),
            contains_node(old(self).nodes@, edge.from),
            contains_node(old(self).nodes@, edge.to),
        ensures
            final(self).wf(),
            final(self).nodes@ == old(self).nodes@,
            contains_edge_id(old(self).edges@, edge.id) ==> {
                &&& r == Err::<usize, MMError>(MMError::DuplicateId)
                &&& final(self).edges@ == old(self).edges@
            },
            !contains_edge_id(old(self).edges@, edge.id) ==> {
                &&& r == Ok::<usize, MMError>(old(self).edges@.len() as usize)
                &&& final(self).edges@ == old(self).edges@.push(edge)
            },
    {
        match self.find_edge_by_id(edge.id) {
            Some(_) => {
                proof {
                    assert(contains_edge_id(self.edges@, edge.id));
                }
                Err(MMError::DuplicateId)
            },
            None => {
                let idx = self.edges.len();
                self.edges.push(edge);
                Ok(idx)
            },
        }
    }
}

/// One edge as read from a network file, with ids already parsed to
/// integers and coordinates scaled to the library's linear unit.
#[derive(Debug)]
pub struct EdgeData {
    pub edge_id: u64,
    pub from_node_id: u64,
    pub to_node_id: u64,
    /// Length property as loaded; kept as the edge's `ori_length`.
    pub length: u64,
    pub name: String,
    pub geometry: Vec<Point>,
}

/// Is `j` the first feature with its edge id?
pub open spec fn first_occurrence(feats: Seq<EdgeData>, j: int) -> bool {
    forall|j2: int| 0 <= j2 < j ==> (#[trigger] feats[j2]).edge_id != feats[j].edge_id
}

/// Is the geometry of this feature loadable: at least two vertices and
/// a routable planar length?
pub open spec fn feature_geometry_ok(f: EdgeData) -> bool {
    &&& f.geometry@.len() >= 2
    &&& crate::algorithm::polyline_len(f.geometry@) <= MAX_EDGE_LENGTH as int
}

/// Is `e` the edge some feature of `feats` gives rise to?
pub open spec fn edge_from_features(feats: Seq<EdgeData>, e: Edge) -> bool {
    exists|j: int| 0 <= j < feats.len() && feature_matches_edge(&feats[j], &e)
}

/// The network edge that feature `f` gives rise to.
pub open spec fn feature_matches_edge(f: &EdgeData, e: &Edge) -> bool {
    &&& e.id == f.edge_id
    &&& e.from == NodeId::Real(f.from_node_id)
    &&& e.to == NodeId::Real(f.to_node_id)
    &&& e.ori_length == f.length
    &&& e.name@ == f.name@
    &&& e.geometry.0@ == f.geometry@
    &&& e.length as int == crate::algorithm::polyline_len(f.geometry@)
    &&& e.edge_type == EdgeType::Real
}

impl Network {
    /// Builds a network from loaded features.  Each edge's stored length
    /// is recomputed as the planar length of its geometry; the loaded
    /// length is kept as `ori_length`.  A feature whose edge id was
    /// already taken is skipped; missing nodes are created on the fly.
    /// Fails with `InvalidGeometry` on degenerate or overlong geometry
    /// and with `InvalidInput` when the node capacity is exceeded.
    pub fn from_features(feats: &Vec<EdgeData>) -> (r: Result<Network, MMError>)
        requires
            forall|j: int|
                0 <= j < feats@.len() ==> crate::algorithm::wf_polyline(
                    #[trigger] feats@[j].geometry@,
                ),
        ensures
            r matches Ok(n) ==> {
                &&& n.wf()
                &&& n.nodes@.len() <= crate::MAX_GRAPH_NODES
                &&& forall|i: int|
                    0 <= i < n.edges@.len() ==> edge_from_features(
                        feats@,
                        #[trigger] n.edges@[i],
                    )
                &&& forall|j: int|
                    0 <= j < feats@.len() ==> contains_edge_id(
                        n.edges@,
                        #[trigger] feats@[j].edge_id,
                    )
                &&& forall|j: int|
                    0 <= j < feats@.len() && first_occurrence(feats@, j) ==> exists|i: int|
                        0 <= i < n.edges@.len() && feature_matches_edge(
                            &feats@[j],
                            &#[trigger] n.edges@[i],
                        )
            },
            r matches Err(e) ==> e == MMError::InvalidGeometry || e == MMError::InvalidInput,
            r == Err::<Network, MMError>(MMError::InvalidGeometry) ==> exists|j: int|
                0 <= j < feats@.len() && !feature_geometry_ok(#[trigger] feats@[j]),
            r == Err::<Network, MMError>(MMError::InvalidInput) ==> 2 * feats@.len() + 2
                > crate::MAX_GRAPH_NODES,
            (forall|j: int| 0 <= j < feats@.len() ==> feature_geometry_ok(#[trigger] feats@[j]))
                && 2 * feats@.len() + 2 <= crate::MAX_GRAPH_NODES ==> r is Ok,
    {
        let mut net = Network::new();
        let mut k: usize = 0;
        while k < feats.len()
            invariant
                0 <= k <= feats@.len(),
                net.wf(),
                net.nodes@.len() <= crate::MAX_GRAPH_NODES,
                forall|j: int|
                    0 <= j < feats@.len() ==> crate::algorithm::wf_polyline(
                        #[trigger] feats@[j].geometry@,
                    ),
                net.nodes@.len() <= 2 * k,
                forall|i: int|
                    0 <= i < net.edges@.len() ==> edge_from_features(
                        feats@,
                        #[trigger] net.edges@[i],
                    ),
                forall|i: int|
                    0 <= i < net.edges@.len() ==> exists|j2: int|
                        0 <= j2 < k && feats@[j2].edge_id == (#[trigger] net.edges@[i]).id,
                forall|j: int|
                    0 <= j < k ==> contains_edge_id(net.edges@, #[trigger] feats@[j].edge_id),
                forall|j: int|
                    0 <= j < k && first_occurrence(feats@, j) ==> exists|i: int|
                        0 <= i < net.edges@.len() && feature_matches_edge(
                            &feats@[j],
                            &#[trigger] net.edges@[i],
                        ),
            decreases feats@.len() - k,
        {
            let f = &feats[k];
            proof {
                assert(wf_polyline(feats@[k as int].geometry@));
            }
            let geometry = Line(copy_points(&f.geometry));
            let length = match crate::algorithm::linestring_distance(&geometry) {
                Ok(l) => l,
                Err(e) => {
                    proof {
                        assert(!feature_geometry_ok(feats@[k as int]));
                    }
                    return Err(e);
                },
            };
            let from = NodeId::Real(f.from_node_id);
            let to = NodeId::Real(f.to_node_id);
            match net.find_node_by_id(&from) {
                Some(fi) => {
                    proof {
                        assert(net.nodes@[fi as int] == from);
                        assert(contains_node(net.nodes@, from));
                    }
                },
                None => {
                    if net.nodes.len() >= crate::MAX_GRAPH_NODES {
                        proof {
                            assert(2 * feats@.len() + 2 > crate::MAX_GRAPH_NODES);
                        }
                        return Err(MMError::InvalidInput);
                    }
                    let ghost nodes0 = net.nodes@;
                    let added = net.add_node(from);
                    proof {
                        assert(added is Ok);
                        lemma_contains_push(nodes0, from, from);
                    }
                },
            }
            assert(contains_node(net.nodes@, from));
            match net.find_node_by_id(&to) {
                Some(ti) => {
                    proof {
                        assert(net.nodes@[ti as int] == to);
                        assert(contains_node(net.nodes@, to));
                    }
                },
                None => {
                    if net.nodes.len() >= crate::MAX_GRAPH_NODES {
                        proof {
                            assert(2 * feats@.len() + 2 > crate::MAX_GRAPH_NODES);
                        }
                        return Err(MMError::InvalidInput);
                    }
                    let ghost nodes0 = net.nodes@;
                    let added = net.add_node(to);
                    proof {
                        assert(added is Ok);
                        lemma_contains_push(nodes0, to, to);
                        lemma_contains_push(nodes0, to, from);
                    }
                },
            }
            assert(contains_node(net.nodes@, to));
            let edge = Edge {
                id: f.edge_id,
                from,
                to,
                length,
                ori_length: f.length,
                edge_type: EdgeType::Real,
                name: f.name.clone(),
                geometry,
            };
            let ghost new_edge = edge;
            let ghost edges_pre = net.edges@;
            if net.find_edge_by_id(edge.id).is_none() {
                proof {
                    assert(contains_node(net.nodes@, from));
                    assert(contains_node(net.nodes@, to));
                }
                let ghost edges0 = net.edges@;
                let added = net.add_edge(edge);
                proof {
                    assert(added is Ok);
                    assert(net.edges@ == edges0.push(new_edge));
                    assert(feature_matches_edge(&feats@[k as int], &new_edge));
                    assert forall|i: int| 0 <= i < net.edges@.len() implies edge_from_features(
                        feats@,
                        #[trigger] net.edges@[i],
                    ) by {
                        if i < edges0.len() {
                            assert(net.edges@[i] == edges0[i]);
                        } else {
                            assert(net.edges@[i] == new_edge);
                            assert(feature_matches_edge(&feats@[k as int], &net.edges@[i]));
                        }
                    }
                    assert forall|j: int| 0 <= j < k + 1 implies contains_edge_id(
                        net.edges@,
                        #[trigger] feats@[j].edge_id,
                    ) by {
                        if j < k {
                            lemma_contains_edge_push(edges0, new_edge, feats@[j].edge_id);
                        } else {
                            lemma_contains_edge_push(edges0, new_edge, new_edge.id);
                        }
                    }
                    assert forall|i: int|
                        0 <= i < net.edges@.len() implies exists|j2: int|
                        0 <= j2 < k + 1 && feats@[j2].edge_id == (
                        #[trigger] net.edges@[i]).id by {
                        if i < edges0.len() {
                            assert(net.edges@[i] == edges0[i]);
                            let j3 = choose|j3: int|
                                0 <= j3 < k && feats@[j3].edge_id == edges0[i].id;
                            assert(0 <= j3 < k + 1 && feats@[j3].edge_id == net.edges@[i].id);
                        } else {
                            assert(net.edges@[i] == new_edge);
                            assert(feats@[k as int].edge_id == net.edges@[i].id);
                        }
                    }
                }
            }
            proof {
                assert(contains_edge_id(net.edges@, feats@[k as int].edge_id));
                // A duplicated edge id is never a first occurrence, so
                // the first-occurrence clause grows in either branch.
                assert forall|j: int|
                    0 <= j < k + 1 && first_occurrence(feats@, j) implies exists|i: int|
                    0 <= i < net.edges@.len() && feature_matches_edge(
                        &feats@[j],
                        &#[trigger] net.edges@[i],
                    ) by {
                    if j < k {
                        let i0 = choose|i0: int|
                            0 <= i0 < edges_pre.len() && feature_matches_edge(
                                &feats@[j],
                                &edges_pre[i0],
                            );
                        assert(net.edges@[i0] == edges_pre[i0]);
                        assert(feature_matches_edge(&feats@[j], &net.edges@[i0]));
                    } else {
                        if edges_pre.len() < net.edges@.len() {
                            assert(net.edges@[net.edges@.len() - 1] == new_edge);
                            assert(feature_matches_edge(
                                &feats@[j],
                                &net.edges@[net.edges@.len() - 1],
                            ));
                        } else {
                            // The id was already present, so an earlier
                            // feature carries it: not a first occurrence.
                            assert(contains_edge_id(edges_pre, new_edge.id));
                            let iw = choose|iw: int|
                                0 <= iw < edges_pre.len() && edges_pre[iw].id == new_edge.id;
                            let j4 = choose|j4: int|
                                0 <= j4 < k && feats@[j4].edge_id == edges_pre[iw].id;
                            assert(feats@[j4].edge_id == feats@[j].edge_id);
                            assert(!first_occurrence(feats@, j));
                            assert(false);
                        }
                    }
                }
            }
            k = k + 1;
        }
        Ok(net)
    }
}

} // verus!
