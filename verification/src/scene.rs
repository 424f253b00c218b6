use vstd::prelude::*;

verus! {

/// One node of a scene: the vertex array object it draws, how many indices
/// to draw from it, and its children by number.
struct SceneNode {
    vao_id: u32,
    index_count: i32,
    children: Vec<usize>,
}

/// A scene graph: nodes numbered from 0 in the order they were added, each
/// with a list of children. A node may be the child of several nodes and
/// of the same node several times, but no node is its own descendant.
pub struct SceneGraph {
    nodes: Vec<SceneNode>,
    /// A height for every node that strictly drops from each node to each of
    /// its children; it exists because the graph has no cycle.
    rank: Ghost<Seq<nat>>,
}

/// A step of the transformation update: `node` is reached from `parent`
/// (`None` for the node the walk starts at).
#[derive(Clone, Copy, Debug, PartialEq, Eq, Structural)]
pub struct Visit {
    pub node: usize,
    pub parent: Option<usize>,
}

/// A draw command: bind `vao_id` and draw `index_count` indices with the
/// transformation of `node`.
#[derive(Clone, Copy, Debug, PartialEq, Eq, Structural)]
pub struct DrawCall {
    pub node: usize,
    pub vao_id: u32,
    pub index_count: i32,
}

/// Number of indices given to a node that has no geometry of its own.
pub const NO_GEOMETRY: i32 = -1;

impl SceneGraph {
    /// Every child number names a node, and heights drop from parent to
    /// child (so the graph has no cycle).
    #[verifier::type_invariant]
    pub closed spec fn inv(self) -> bool {
        &&& self.rank@.len() == self.nodes@.len()
        &&& self.nodes@.len() <= usize::MAX
        &&& forall|i: int, j: int|
            0 <= i < self.nodes@.len() && 0 <= j < self.nodes@[i].children@.len() ==> {
                &&& (#[trigger] self.nodes@[i].children@[j]) < self.nodes@.len()
                &&& self.rank@[self.nodes@[i].children@[j] as int] < self.rank@[i]
            }
    }

    /// Number of nodes.
    pub closed spec fn node_count(self) -> nat {
        self.nodes@.len()
    }

    /// The vertex array object of node `i`.
    pub closed spec fn vao_of(self, i: int) -> u32 {
        self.nodes@[i].vao_id
    }

    /// The number of indices node `i` draws.
    pub closed spec fn index_count_of(self, i: int) -> i32 {
        self.nodes@[i].index_count
    }

    /// The children of node `i`, in the order they were added.
    pub closed spec fn children_of(self, i: int) -> Seq<usize> {
        self.nodes@[i].children@
    }

    /// `path` is a walk from parent to child through the graph.
    pub open spec fn is_path(self, path: Seq<usize>) -> bool {
        &&& path.len() >= 1
        &&& forall|k: int| 0 <= k < path.len() ==> (#[trigger] path[k]) < self.node_count()
        &&& forall|k: int|
            0 <= k < path.len() - 1 ==> self.children_of(#[trigger] path[k] as int).contains(
                path[k + 1],
            )
    }

    /// Node `to` is `from` or one of its descendants.
    pub open spec fn has_path(self, from: usize, to: usize) -> bool {
        exists|path: Seq<usize>|
            self.is_path(path) && path[0] == from && path[path.len() - 1] == to
    }

    /// Whether node `i` draws anything.
    pub open spec fn drawable(self, i: int) -> bool {
        self.index_count_of(i) > 0
    }

    /// The height of node `i`: larger than the height of each of its
    /// children.
    pub closed spec fn rank_of(self, i: int) -> nat {
        self.rank@[i]
    }

    /// The walk of the transformation update from node `x`, reached from
    /// `parent`: `x` itself, then the walk from each child in order.
    pub open spec fn visits(self, x: usize, parent: Option<usize>) -> Seq<Visit>
        decreases self.rank_of(x as int), 1int, 0int,
        when self.inv() && x < self.node_count()
    {
        seq![Visit { node: x, parent }] + self.child_visits(x, 0)
    }

    /// The walks from the children of `x` with position `i` onwards.
    pub open spec fn child_visits(self, x: usize, i: int) -> Seq<Visit>
        decreases self.rank_of(x as int), 0int, self.children_of(x as int).len() - i,
        when self.inv() && x < self.node_count() && 0 <= i
    {
        if i < self.children_of(x as int).len() {
            self.visits(self.children_of(x as int)[i], Some(x)) + self.child_visits(x, i + 1)
        } else {
            Seq::empty()
        }
    }
}

impl SceneGraph {
    /// A scene with no nodes.
    pub fn new() -> (graph: Self)
        ensures
            graph.node_count() == 0,
    {
        SceneGraph { nodes: Vec::new(), rank: Ghost(Seq::empty()) }
    }

    /// Number of nodes.
    pub fn len(&self) -> (n: usize)
        ensures
            n == self.node_count(),
    {
        self.nodes.len()
    }

    /// Adds a node without children that draws `index_count` indices from
    /// the vertex array object `vao_id`, and returns its number.
    pub fn add_node(&mut self, vao_id: u32, index_count: i32) -> (id: usize)
        ensures
            id == old(self).node_count(),
            final(self).node_count() == old(self).node_count() + 1,
            final(self).vao_of(id as int) == vao_id,
            final(self).index_count_of(id as int) == index_count,
            final(self).children_of(id as int) == Seq::<usize>::empty(),
            forall|i: int|
                0 <= i < old(self).node_count() ==> {
                    &&& final(self).vao_of(i) == old(self).vao_of(i)
                    &&& final(self).index_count_of(i) == old(self).index_count_of(i)
                    &&& final(self).children_of(i) == old(self).children_of(i)
                },
    {
        proof {
            use_type_invariant(&*self);
        }
        let mut graph = SceneGraph::new();
        std::mem::swap(&mut graph, self);
        let SceneGraph { mut nodes, rank } = graph;
        let ghost old_nodes = nodes@;
        nodes.push(SceneNode { vao_id, index_count, children: Vec::new() });
        let id = nodes.len() - 1;
        let ghost new_rank = rank@.push(0nat);
        proof {
            assert forall|i: int, j: int|
                0 <= i < nodes@.len() && 0 <= j < nodes@[i].children@.len() implies {
                    &&& (#[trigger] nodes@[i].children@[j]) < nodes@.len()
                    &&& new_rank[nodes@[i].children@[j] as int] < new_rank[i]
                } by {
                assert(i < old_nodes.len());
                assert(nodes@[i] == old_nodes[i]);
                assert(old_nodes[i].children@[j] < old_nodes.len());
            }
        }
        *self = SceneGraph { nodes, rank: Ghost(new_rank) };
        id
    }

    /// Adds a node without geometry and without children (a grouping node
    /// such as the root), and returns its number.
    pub fn add_empty_node(&mut self) -> (id: usize)
        ensures
            id == old(self).node_count(),
            final(self).node_count() == old(self).node_count() + 1,
            final(self).vao_of(id as int) == 0,
            final(self).index_count_of(id as int) == NO_GEOMETRY,
            final(self).children_of(id as int) == Seq::<usize>::empty(),
            forall|i: int|
                0 <= i < old(self).node_count() ==> {
                    &&& final(self).vao_of(i) == old(self).vao_of(i)
                    &&& final(self).index_count_of(i) == old(self).index_count_of(i)
                    &&& final(self).children_of(i) == old(self).children_of(i)
                },
    {
        self.add_node(0, NO_GEOMETRY)
    }
}

impl SceneGraph {
    proof fn lemma_path_prepend(self, x: usize, path: Seq<usize>)
        requires
            x < self.node_count(),
            self.is_path(path),
            self.children_of(x as int).contains(path[0]),
        ensures
            self.is_path(seq![x] + path),
            (seq![x] + path)[0] == x,
            (seq![x] + path)[(seq![x] + path).len() - 1] == path[path.len() - 1],
    {
        let q = seq![x] + path;
        assert forall|k: int| 0 <= k < q.len() implies (#[trigger] q[k]) < self.node_count() by {
            if k > 0 {
                assert(q[k] == path[k - 1]);
            }
        }
        assert forall|k: int| 0 <= k < q.len() - 1 implies self.children_of(
            #[trigger] q[k] as int,
        ).contains(q[k + 1]) by {
            if k > 0 {
                assert(q[k] == path[k - 1]);
                assert(q[k + 1] == path[k]);
            }
        }
    }

    proof fn lemma_path_tail(self, path: Seq<usize>)
        requires
            self.is_path(path),
            path.len() >= 2,
        ensures
            self.is_path(path.drop_first()),
            self.children_of(path[0] as int).contains(path[1]),
    {
        let t = path.drop_first();
        assert forall|k: int| 0 <= k < t.len() implies (#[trigger] t[k]) < self.node_count() by {
            assert(t[k] == path[k + 1]);
        }
        assert forall|k: int| 0 <= k < t.len() - 1 implies self.children_of(
            #[trigger] t[k] as int,
        ).contains(t[k + 1]) by {
            assert(t[k] == path[k + 1]);
            assert(t[k + 1] == path[k + 2]);
        }
        assert(path[0] == path[0]);
    }

    /// Whether node `to` is `from` or one of its descendants.
    pub fn reaches(&self, from: usize, to: usize) -> (found: bool)
        requires
            from < self.node_count(),
            to < self.node_count(),
        ensures
            found == self.has_path(from, to),
        decreases self.rank_of(from as int),
    {
        proof {
            use_type_invariant(self);
        }
        if from == to {
            assert(self.is_path(seq![from]));
            return true;
        }
        let n = self.nodes[from].children.len();
        let mut i: usize = 0;
        while i < n
            invariant
                self.inv(),
                from < self.node_count(),
                to < self.node_count(),
                from != to,
                n == self.children_of(from as int).len(),
                i <= n,
                forall|k: int| 0 <= k < i ==> !self.has_path(#[trigger] self.children_of(from as int)[k], to),
            decreases n - i,
        {
            let c = self.nodes[from].children[i];
            assert(self.nodes@[from as int].children@[i as int] == c);
            if self.reaches(c, to) {
                proof {
                    let p = choose|p: Seq<usize>| self.is_path(p) && p[0] == c && p[p.len() - 1] == to;
                    assert(self.children_of(from as int)[i as int] == c);
                    assert(self.children_of(from as int).contains(p[0]));
                    self.lemma_path_prepend(from, p);
                }
                return true;
            }
            i = i + 1;
        }
        proof {
            assert forall|p: Seq<usize>|
                !(self.is_path(p) && p[0] == from && p[p.len() - 1] == to) by {
                if self.is_path(p) && p[0] == from && p[p.len() - 1] == to {
                    assert(p.len() >= 2);
                    self.lemma_path_tail(p);
                    let k = choose|k: int|
                        0 <= k < self.children_of(from as int).len()
                            && self.children_of(from as int)[k] == p[1];
                    let t = p.drop_first();
                    assert(t[0] == p[1]);
                    assert(t[t.len() - 1] == to);
                    assert(self.has_path(self.children_of(from as int)[k], to));
                }
            }
        }
        false
    }
}

impl SceneGraph {
    /// Makes `child` the last child of `parent`.
    ///
    /// The new edge must not close a cycle: `parent` may not be `child` or a
    /// descendant of it (walking such a graph would never end). Callers test
    /// this with [`SceneGraph::reaches`].
    pub fn add_child(&mut self, parent: usize, child: usize)
        requires
            parent < old(self).node_count(),
            child < old(self).node_count(),
            !old(self).has_path(child, parent),
        ensures
            final(self).node_count() == old(self).node_count(),
            final(self).children_of(parent as int) == old(self).children_of(parent as int).push(
                child,
            ),
            forall|i: int|
                0 <= i < old(self).node_count() ==> {
                    &&& final(self).vao_of(i) == old(self).vao_of(i)
                    &&& final(self).index_count_of(i) == old(self).index_count_of(i)
                    &&& i != parent ==> final(self).children_of(i) == old(self).children_of(i)
                },
    {
        proof {
            use_type_invariant(&*self);
        }
        let ghost g = *self;
        let mut graph = SceneGraph::new();
        std::mem::swap(&mut graph, self);
        let SceneGraph { mut nodes, rank } = graph;
        assert(nodes@ == g.nodes@ && rank@ == g.rank@);
        nodes[parent].children.push(child);
        let ghost new_rank = Seq::new(rank@.len(), |x: int| g.raised_rank(parent, child, x));
        proof {
            assert forall|i: int, j: int|
                0 <= i < nodes@.len() && 0 <= j < nodes@[i].children@.len() implies {
                    &&& (#[trigger] nodes@[i].children@[j]) < nodes@.len()
                    &&& new_rank[nodes@[i].children@[j] as int] < new_rank[i]
                } by {
                if i == parent && j == g.nodes@[i].children@.len() {
                    assert(nodes@[i].children@[j] == child);
                    g.lemma_new_edge_rank(parent, child);
                } else {
                    assert(nodes@[i].children@[j] == g.nodes@[i].children@[j]);
                    g.lemma_old_edge_rank(parent, child, i, j);
                }
            }
        }
        *self = SceneGraph { nodes, rank: Ghost(new_rank) };
    }
}

impl SceneGraph {
    /// The heights after an edge from `parent` to `child` is added: every node
    /// from which `parent` can be reached is raised above `child`.
    spec fn raised_rank(self, parent: usize, child: usize, x: int) -> nat {
        if self.has_path(x as usize, parent) {
            self.rank@[x] + self.rank@[child as int] + 1
        } else {
            self.rank@[x]
        }
    }

    proof fn lemma_new_edge_rank(self, parent: usize, child: usize)
        requires
            self.inv(),
            parent < self.node_count(),
            child < self.node_count(),
            !self.has_path(child, parent),
        ensures
            self.raised_rank(parent, child, child as int) < self.raised_rank(
                parent,
                child,
                parent as int,
            ),
    {
        assert(self.is_path(seq![parent]));
        assert(self.has_path(parent, parent));
    }

    proof fn lemma_old_edge_rank(self, parent: usize, child: usize, i: int, j: int)
        requires
            self.inv(),
            parent < self.node_count(),
            child < self.node_count(),
            !self.has_path(child, parent),
            0 <= i < self.node_count(),
            0 <= j < self.children_of(i).len(),
        ensures
            self.children_of(i)[j] < self.node_count(),
            self.raised_rank(parent, child, self.children_of(i)[j] as int) < self.raised_rank(
                parent,
                child,
                i,
            ),
    {
        let v = self.nodes@[i].children@[j];
        assert(v < self.nodes@.len());
        assert(self.rank@[v as int] < self.rank@[i]);
        let iu = i as usize;
        assert(iu as int == i);
        if self.has_path(v, parent) {
            let p = choose|p: Seq<usize>| self.is_path(p) && p[0] == v && p[p.len() - 1] == parent;
            assert(self.children_of(iu as int)[j] == v);
            assert(self.children_of(iu as int).contains(p[0]));
            self.lemma_path_prepend(iu, p);
            assert(self.has_path(iu, parent));
        }
    }
}

impl SceneGraph {
    fn collect_visits(&self, x: usize, parent: Option<usize>, out: &mut Vec<Visit>)
        requires
            self.inv(),
            x < self.node_count(),
        ensures
            final(out)@ == old(out)@ + self.visits(x, parent),
        decreases self.rank_of(x as int),
    {
        let ghost start = out@;
        out.push(Visit { node: x, parent });
        assert(out@ + self.child_visits(x, 0) =~= start + self.visits(x, parent));
        let n = self.nodes[x].children.len();
        let mut i: usize = 0;
        while i < n
            invariant
                self.inv(),
                x < self.node_count(),
                n == self.children_of(x as int).len(),
                i <= n,
                out@ + self.child_visits(x, i as int) == start + self.visits(x, parent),
            decreases n - i,
        {
            let c = self.nodes[x].children[i];
            assert(self.children_of(x as int)[i as int] == c);
            assert(c < self.node_count() && self.rank_of(c as int) < self.rank_of(x as int));
            let ghost before = out@;
            self.collect_visits(c, Some(x), out);
            assert(self.child_visits(x, i as int) == self.visits(c, Some(x)) + self.child_visits(
                x,
                i + 1,
            ));
            assert(out@ + self.child_visits(x, i + 1) =~= before + self.child_visits(x, i as int));
            i = i + 1;
        }
        assert(self.child_visits(x, n as int) =~= Seq::<Visit>::empty());
        assert(out@ =~= out@ + self.child_visits(x, n as int));
    }

    /// The order in which the transformation update walks the scene from
    /// `root`: each node, then the walk from each of its children in order,
    /// every node with the node it was reached from.
    pub fn visit_order(&self, root: usize) -> (walk: Vec<Visit>)
        requires
            root < self.node_count(),
        ensures
            walk@ == self.visits(root, None),
            walk@.len() >= 1,
            walk@[0] == (Visit { node: root, parent: None }),
            walk@.filter(from_parent(root)).map_values(visited_node()) == self.children_of(
                root as int,
            ),
            forall|k: int| 0 <= k < walk@.len() ==> self.has_path(root, #[trigger] walk@[k].node),
            forall|y: usize|
                self.has_path(root, y) ==> exists|k: int|
                    0 <= k < walk@.len() && (#[trigger] walk@[k]).node == y,
    {
        proof {
            use_type_invariant(self);
        }
        let mut walk: Vec<Visit> = Vec::new();
        self.collect_visits(root, None, &mut walk);
        assert(walk@ =~= self.visits(root, None));
        proof {
            self.law_walk_parents_first(root);
            self.law_children_in_added_order(root);
            assert forall|y: usize| self.has_path(root, y) implies exists|k: int|
                0 <= k < walk@.len() && (#[trigger] walk@[k]).node == y by {
                self.law_walk_complete(root, y);
            }
        }
        walk
    }
}

impl SceneGraph {
    /// The draw command of node `x`.
    pub open spec fn draw_call_of(self, x: usize) -> DrawCall {
        DrawCall { node: x, vao_id: self.vao_of(x as int), index_count: self.index_count_of(x as int) }
    }

    /// What drawing the scene from node `x` draws: `x` if it has geometry,
    /// then what is drawn from each child in order.
    pub open spec fn draws(self, x: usize) -> Seq<DrawCall>
        decreases self.rank_of(x as int), 1int, 0int,
        when self.inv() && x < self.node_count()
    {
        (if self.drawable(x as int) {
            seq![self.draw_call_of(x)]
        } else {
            Seq::empty()
        }) + self.child_draws(x, 0)
    }

    /// What is drawn from the children of `x` with position `i` onwards.
    pub open spec fn child_draws(self, x: usize, i: int) -> Seq<DrawCall>
        decreases self.rank_of(x as int), 0int, self.children_of(x as int).len() - i,
        when self.inv() && x < self.node_count() && 0 <= i
    {
        if i < self.children_of(x as int).len() {
            self.draws(self.children_of(x as int)[i]) + self.child_draws(x, i + 1)
        } else {
            Seq::empty()
        }
    }

    fn collect_draws(&self, x: usize, out: &mut Vec<DrawCall>)
        requires
            self.inv(),
            x < self.node_count(),
        ensures
            final(out)@ == old(out)@ + self.draws(x),
        decreases self.rank_of(x as int),
    {
        let ghost start = out@;
        let node = &self.nodes[x];
        if node.index_count > 0 {
            out.push(DrawCall { node: x, vao_id: node.vao_id, index_count: node.index_count });
        }
        assert(out@ + self.child_draws(x, 0) =~= start + self.draws(x));
        let n = node.children.len();
        let mut i: usize = 0;
        while i < n
            invariant
                self.inv(),
                x < self.node_count(),
                n == self.children_of(x as int).len(),
                i <= n,
                out@ + self.child_draws(x, i as int) == start + self.draws(x),
            decreases n - i,
        {
            let c = self.nodes[x].children[i];
            assert(self.children_of(x as int)[i as int] == c);
            assert(c < self.node_count() && self.rank_of(c as int) < self.rank_of(x as int));
            let ghost before = out@;
            self.collect_draws(c, out);
            assert(self.child_draws(x, i as int) == self.draws(c) + self.child_draws(x, i + 1));
            assert(out@ + self.child_draws(x, i + 1) =~= before + self.child_draws(x, i as int));
            i = i + 1;
        }
        assert(self.child_draws(x, n as int) =~= Seq::<DrawCall>::empty());
        assert(out@ =~= out@ + self.child_draws(x, n as int));
    }

    /// The draw commands for the scene from `root`, in drawing order: each
    /// node that has geometry (a positive index count), then what is drawn
    /// from each of its children in order.
    pub fn draw_calls(&self, root: usize) -> (calls: Vec<DrawCall>)
        requires
            root < self.node_count(),
        ensures
            calls@ == self.draws(root),
            self.index_count_of(root as int) > 0 ==> calls@.len() >= 1 && calls@[0] == (DrawCall {
                node: root,
                vao_id: self.vao_of(root as int),
                index_count: self.index_count_of(root as int),
            }),
            forall|k: int|
                0 <= k < calls@.len() ==> {
                    &&& (#[trigger] calls@[k]).index_count > 0
                    &&& calls@[k].node < self.node_count()
                    &&& calls@[k].vao_id == self.vao_of(calls@[k].node as int)
                    &&& calls@[k].index_count == self.index_count_of(calls@[k].node as int)
                    &&& self.has_path(root, calls@[k].node)
                },
            forall|y: usize|
                self.has_path(root, y) && self.index_count_of(y as int) > 0 ==> exists|k: int|
                    0 <= k < calls@.len() && (#[trigger] calls@[k]).node == y,
    {
        proof {
            use_type_invariant(self);
        }
        let mut calls: Vec<DrawCall> = Vec::new();
        self.collect_draws(root, &mut calls);
        assert(calls@ =~= self.draws(root));
        proof {
            self.law_draws_exact(root);
        }
        calls
    }
}

impl SceneGraph {
    /// The draw commands of the drawable nodes of `walk`, in its order.
    pub open spec fn walk_draws(self, walk: Seq<Visit>) -> Seq<DrawCall>
        decreases walk.len(),
    {
        if walk.len() == 0 {
            Seq::empty()
        } else {
            let rest = self.walk_draws(walk.drop_last());
            if self.drawable(walk.last().node as int) {
                rest.push(self.draw_call_of(walk.last().node))
            } else {
                rest
            }
        }
    }

    proof fn lemma_walk_draws_append(self, a: Seq<Visit>, b: Seq<Visit>)
        ensures
            self.walk_draws(a + b) == self.walk_draws(a) + self.walk_draws(b),
        decreases b.len(),
    {
        if b.len() == 0 {
            assert(a + b =~= a);
            assert(self.walk_draws(b) =~= Seq::<DrawCall>::empty());
            assert(self.walk_draws(a) + self.walk_draws(b) =~= self.walk_draws(a));
        } else {
            self.lemma_walk_draws_append(a, b.drop_last());
            assert((a + b).drop_last() =~= a + b.drop_last());
            assert((a + b).last() == b.last());
            let x = self.walk_draws(a);
            let y = self.walk_draws(b.drop_last());
            if self.drawable(b.last().node as int) {
                assert((x + y).push(self.draw_call_of(b.last().node)) =~= x + y.push(
                    self.draw_call_of(b.last().node),
                ));
            }
        }
    }

    proof fn lemma_draws_follow_visits(self, x: usize, parent: Option<usize>)
        requires
            self.inv(),
            x < self.node_count(),
        ensures
            self.draws(x) == self.walk_draws(self.visits(x, parent)),
        decreases self.rank_of(x as int), 1int, 0int,
    {
        self.lemma_child_draws_follow_visits(x, 0);
        let head = seq![Visit { node: x, parent }];
        self.lemma_walk_draws_append(head, self.child_visits(x, 0));
        assert(head.drop_last() =~= Seq::<Visit>::empty());
        assert(self.walk_draws(Seq::<Visit>::empty()) =~= Seq::<DrawCall>::empty());
        if self.drawable(x as int) {
            assert(self.walk_draws(head) =~= seq![self.draw_call_of(x)]);
        } else {
            assert(self.walk_draws(head) =~= Seq::<DrawCall>::empty());
        }
    }

    proof fn lemma_child_draws_follow_visits(self, x: usize, i: int)
        requires
            self.inv(),
            x < self.node_count(),
            0 <= i,
        ensures
            self.child_draws(x, i) == self.walk_draws(self.child_visits(x, i)),
        decreases self.rank_of(x as int), 0int, self.children_of(x as int).len() - i,
    {
        if i < self.children_of(x as int).len() {
            let c = self.children_of(x as int)[i];
            assert(self.nodes@[x as int].children@[i] == c);
            assert(c < self.node_count() && self.rank_of(c as int) < self.rank_of(x as int));
            self.lemma_draws_follow_visits(c, Some(x));
            self.lemma_child_draws_follow_visits(x, i + 1);
            self.lemma_walk_draws_append(self.visits(c, Some(x)), self.child_visits(x, i + 1));
        } else {
            assert(self.walk_draws(Seq::<Visit>::empty()) =~= Seq::<DrawCall>::empty());
        }
    }

    /// Drawing the scene from a node draws exactly the nodes with geometry
    /// that the transformation update walks through from that node, in the
    /// same order.
    pub proof fn law_draw_order_is_walk_order(self, root: usize, parent: Option<usize>)
        requires
            self.inv(),
            root < self.node_count(),
        ensures
            self.draws(root) == self.walk_draws(self.visits(root, parent)),
    {
        self.lemma_draws_follow_visits(root, parent);
    }
}

impl SceneGraph {
    /// Visit `k` of `walk` is reached from visit `j`, an earlier visit of
    /// which it is a child.
    pub open spec fn reached_from(self, walk: Seq<Visit>, k: int, j: int) -> bool {
        &&& 0 <= j < k < walk.len()
        &&& walk[k].parent == Some(walk[j].node)
        &&& self.children_of(walk[j].node as int).contains(walk[k].node)
    }

    /// Visit `k` of `walk` is reached from an earlier visit.
    pub open spec fn reached_from_earlier(self, walk: Seq<Visit>, k: int) -> bool {
        exists|j: int| #[trigger] self.reached_from(walk, k, j)
    }

    /// Every visit after the first is reached from a node visited before it,
    /// of which it is a child.
    pub open spec fn parents_visited_first(self, walk: Seq<Visit>) -> bool {
        forall|k: int| 0 < k < walk.len() ==> #[trigger] self.reached_from_earlier(walk, k)
    }

    /// Visit `k` of `s` is reached from `x`, as a child of `x`.
    spec fn reached_from_node(self, x: usize, s: Seq<Visit>, k: int) -> bool {
        s[k].parent == Some(x) && self.children_of(x as int).contains(s[k].node)
    }

    /// Every visit of `s` is reached either from `x` directly, as a child of
    /// `x`, or from a node visited before it in `s`.
    spec fn reached_from_or_within(self, x: usize, s: Seq<Visit>) -> bool {
        forall|k: int|
            0 <= k < s.len() ==> #[trigger] self.reached_from_node(x, s, k)
                || self.reached_from_earlier(s, k)
    }

    proof fn lemma_has_path_prepend(self, x: usize, c: usize, y: usize)
        requires
            x < self.node_count(),
            self.children_of(x as int).contains(c),
            self.has_path(c, y),
        ensures
            self.has_path(x, y),
    {
        let p = choose|p: Seq<usize>| self.is_path(p) && p[0] == c && p[p.len() - 1] == y;
        self.lemma_path_prepend(x, p);
    }

    proof fn lemma_walk_shape(self, x: usize, parent: Option<usize>)
        requires
            self.inv(),
            x < self.node_count(),
        ensures
            self.visits(x, parent).len() >= 1,
            self.visits(x, parent)[0] == (Visit { node: x, parent }),
            self.parents_visited_first(self.visits(x, parent)),
            forall|k: int|
                0 <= k < self.visits(x, parent).len() ==> self.has_path(
                    x,
                    #[trigger] self.visits(x, parent)[k].node,
                ),
        decreases self.rank_of(x as int), 1int, 0int,
    {
        self.lemma_child_walk_shape(x, 0);
        let cv = self.child_visits(x, 0);
        let v = self.visits(x, parent);
        assert(v == seq![Visit { node: x, parent }] + cv);
        assert(v[0] == Visit { node: x, parent });
        assert forall|k: int| 0 < k < v.len() implies #[trigger] self.reached_from_earlier(v, k) by {
            assert(v[k] == cv[k - 1]);
            assert(self.reached_from_node(x, cv, k - 1) || self.reached_from_earlier(cv, k - 1));
            if self.reached_from_node(x, cv, k - 1) {
                assert(v[0].node == x);
                assert(self.reached_from(v, k, 0));
            } else {
                let j = choose|j: int| #[trigger] self.reached_from(cv, k - 1, j);
                assert(v[j + 1] == cv[j]);
                assert(self.reached_from(v, k, j + 1));
            }
        }
        assert(self.is_path(seq![x]));
        assert forall|k: int| 0 <= k < v.len() implies self.has_path(x, #[trigger] v[k].node) by {
            if k == 0 {
                assert(self.is_path(seq![x]));
            } else {
                assert(v[k] == cv[k - 1]);
            }
        }
    }

    proof fn lemma_child_walk_shape(self, x: usize, i: int)
        requires
            self.inv(),
            x < self.node_count(),
            0 <= i,
        ensures
            self.reached_from_or_within(x, self.child_visits(x, i)),
            forall|k: int|
                0 <= k < self.child_visits(x, i).len() ==> self.has_path(
                    x,
                    #[trigger] self.child_visits(x, i)[k].node,
                ),
        decreases self.rank_of(x as int), 0int, self.children_of(x as int).len() - i,
    {
        if i < self.children_of(x as int).len() {
            let c = self.children_of(x as int)[i];
            assert(self.nodes@[x as int].children@[i] == c);
            assert(c < self.node_count() && self.rank_of(c as int) < self.rank_of(x as int));
            assert(self.children_of(x as int).contains(c));
            self.lemma_walk_shape(c, Some(x));
            self.lemma_child_walk_shape(x, i + 1);
            let a = self.visits(c, Some(x));
            let b = self.child_visits(x, i + 1);
            let s = self.child_visits(x, i);
            assert(s == a + b);
            assert forall|k: int| 0 <= k < s.len() implies #[trigger] self.reached_from_node(x, s, k)
                || self.reached_from_earlier(s, k) by {
                if k < a.len() {
                    assert(s[k] == a[k]);
                    if k > 0 {
                        assert(self.reached_from_earlier(a, k));
                        let j = choose|j: int| #[trigger] self.reached_from(a, k, j);
                        assert(s[j] == a[j]);
                        assert(self.reached_from(s, k, j));
                    } else {
                        assert(self.reached_from_node(x, s, k));
                    }
                } else {
                    let kb = k - a.len();
                    assert(s[k] == b[kb]);
                    assert(self.reached_from_node(x, b, kb) || self.reached_from_earlier(b, kb));
                    if !self.reached_from_node(x, b, kb) {
                        let j = choose|j: int| #[trigger] self.reached_from(b, kb, j);
                        assert(s[j + a.len()] == b[j]);
                        assert(self.reached_from(s, k, j + a.len()));
                    }
                }
            }
            assert forall|k: int| 0 <= k < s.len() implies self.has_path(
                x,
                #[trigger] s[k].node,
            ) by {
                if k < a.len() {
                    assert(s[k] == a[k]);
                    self.lemma_has_path_prepend(x, c, a[k].node);
                } else {
                    assert(s[k] == b[k - a.len()]);
                }
            }
        }
    }

    /// The transformation update starts at `root` and reaches every later
    /// node from a node it has already passed, of which it is a child; so a
    /// node's transformation is computed after its parent's, and only nodes
    /// below `root` are visited.
    pub proof fn law_walk_parents_first(self, root: usize)
        requires
            self.inv(),
            root < self.node_count(),
        ensures
            self.visits(root, None)[0] == (Visit { node: root, parent: None }),
            self.parents_visited_first(self.visits(root, None)),
            forall|k: int|
                0 <= k < self.visits(root, None).len() ==> self.has_path(
                    root,
                    #[trigger] self.visits(root, None)[k].node,
                ),
    {
        self.lemma_walk_shape(root, None);
    }

    /// No node is its own descendant.
    pub proof fn law_no_cycles(self, path: Seq<usize>)
        requires
            self.inv(),
            self.is_path(path),
            path.len() >= 2,
        ensures
            path[0] != path[path.len() - 1],
    {
        self.lemma_rank_drops(path, path.len() - 1);
    }

    proof fn lemma_rank_drops(self, path: Seq<usize>, k: int)
        requires
            self.inv(),
            self.is_path(path),
            1 <= k < path.len(),
        ensures
            self.rank_of(path[k] as int) < self.rank_of(path[0] as int),
        decreases k,
    {
        let prev = path[k - 1];
        assert(self.children_of(prev as int).contains(path[k]));
        let j = choose|j: int|
            0 <= j < self.children_of(prev as int).len() && self.children_of(prev as int)[j]
                == path[k];
        assert(self.nodes@[prev as int].children@[j] == path[k]);
        if k > 1 {
            self.lemma_rank_drops(path, k - 1);
        }
    }
}

impl SceneGraph {
    /// Some visit of `walk` is to node `y`.
    pub open spec fn walk_visits_node(walk: Seq<Visit>, y: usize) -> bool {
        exists|k: int| 0 <= k < walk.len() && (#[trigger] walk[k]).node == y
    }

    proof fn lemma_child_visits_cover(self, x: usize, i: int, j: int, y: usize)
        requires
            self.inv(),
            x < self.node_count(),
            0 <= i <= j < self.children_of(x as int).len(),
            Self::walk_visits_node(self.visits(self.children_of(x as int)[j], Some(x)), y),
        ensures
            Self::walk_visits_node(self.child_visits(x, i), y),
        decreases j - i,
    {
        let c = self.children_of(x as int)[i];
        let a = self.visits(c, Some(x));
        let b = self.child_visits(x, i + 1);
        assert(self.child_visits(x, i) == a + b);
        if i == j {
            let k = choose|k: int| 0 <= k < a.len() && (#[trigger] a[k]).node == y;
            assert((a + b)[k] == a[k]);
        } else {
            self.lemma_child_visits_cover(x, i + 1, j, y);
            let k = choose|k: int| 0 <= k < b.len() && (#[trigger] b[k]).node == y;
            assert((a + b)[k + a.len()] == b[k]);
        }
    }

    proof fn lemma_walk_complete(self, x: usize, parent: Option<usize>, path: Seq<usize>)
        requires
            self.inv(),
            self.is_path(path),
            path[0] == x,
        ensures
            Self::walk_visits_node(self.visits(x, parent), path[path.len() - 1]),
        decreases path.len(),
    {
        let v = self.visits(x, parent);
        let y = path[path.len() - 1];
        assert(x < self.node_count());
        if path.len() == 1 {
            assert(v[0].node == x);
        } else {
            self.lemma_path_tail(path);
            let tail = path.drop_first();
            let c = path[1];
            assert(tail[0] == c && tail[tail.len() - 1] == y);
            let j = choose|j: int|
                0 <= j < self.children_of(x as int).len() && self.children_of(x as int)[j] == c;
            assert(self.nodes@[x as int].children@[j] == c);
            self.lemma_walk_complete(c, Some(x), tail);
            self.lemma_child_visits_cover(x, 0, j, y);
            let cv = self.child_visits(x, 0);
            let k = choose|k: int| 0 <= k < cv.len() && (#[trigger] cv[k]).node == y;
            assert(v == seq![Visit { node: x, parent }] + cv);
            assert(v[k + 1] == cv[k]);
        }
    }

    /// The transformation update from `root` passes through every
    /// descendant of `root` (and, by `law_walk_parents_first`, through
    /// nothing else).
    pub proof fn law_walk_complete(self, root: usize, y: usize)
        requires
            self.inv(),
            root < self.node_count(),
            self.has_path(root, y),
        ensures
            Self::walk_visits_node(self.visits(root, None), y),
    {
        let path = choose|p: Seq<usize>| self.is_path(p) && p[0] == root && p[p.len() - 1] == y;
        self.lemma_walk_complete(root, None, path);
    }
}

impl SceneGraph {
    /// `call` draws a node with geometry that `walk` visits.
    spec fn draws_a_visited_node(self, walk: Seq<Visit>, call: DrawCall) -> bool {
        exists|j: int|
            0 <= j < walk.len() && self.drawable(walk[j].node as int) && call == self.draw_call_of(
                #[trigger] walk[j].node,
            )
    }

    proof fn lemma_walk_draws_sound(self, walk: Seq<Visit>)
        ensures
            forall|k: int|
                0 <= k < self.walk_draws(walk).len() ==> self.draws_a_visited_node(
                    walk,
                    #[trigger] self.walk_draws(walk)[k],
                ),
        decreases walk.len(),
    {
        if walk.len() > 0 {
            let init = walk.drop_last();
            self.lemma_walk_draws_sound(init);
            let rest = self.walk_draws(init);
            let w = self.walk_draws(walk);
            assert forall|k: int| 0 <= k < w.len() implies self.draws_a_visited_node(
                walk,
                #[trigger] w[k],
            ) by {
                if k < rest.len() {
                    assert(w[k] == rest[k]);
                    assert(self.draws_a_visited_node(init, rest[k]));
                    let j = choose|j: int|
                        0 <= j < init.len() && self.drawable(init[j].node as int) && rest[k]
                            == self.draw_call_of(#[trigger] init[j].node);
                    assert(walk[j] == init[j]);
                } else {
                    let j = walk.len() - 1;
                    assert(walk[j] == walk.last());
                }
            }
        }
    }

    proof fn lemma_walk_draws_complete(self, walk: Seq<Visit>, j: int)
        requires
            0 <= j < walk.len(),
            self.drawable(walk[j].node as int),
        ensures
            exists|k: int|
                0 <= k < self.walk_draws(walk).len() && #[trigger] self.walk_draws(walk)[k]
                    == self.draw_call_of(walk[j].node),
        decreases walk.len(),
    {
        let init = walk.drop_last();
        let rest = self.walk_draws(init);
        let w = self.walk_draws(walk);
        if j == walk.len() - 1 {
            assert(w[rest.len() as int] == self.draw_call_of(walk[j].node));
        } else {
            assert(init[j] == walk[j]);
            self.lemma_walk_draws_complete(init, j);
            let k = choose|k: int| 0 <= k < rest.len() && #[trigger] rest[k] == self.draw_call_of(init[j].node);
            assert(w[k] == rest[k]);
        }
    }

    /// Drawing from `root` draws `root` first when it has geometry, wherever
    /// it stands; every command draws a descendant of `root` that has
    /// geometry, with that node's own vertex array object and index count;
    /// and every descendant of `root` with geometry is drawn.
    pub proof fn law_draws_exact(self, root: usize)
        requires
            self.inv(),
            root < self.node_count(),
        ensures
            self.index_count_of(root as int) > 0 ==> self.draws(root).len() >= 1 && self.draws(
                root,
            )[0] == (DrawCall {
                node: root,
                vao_id: self.vao_of(root as int),
                index_count: self.index_count_of(root as int),
            }),
            forall|k: int|
                0 <= k < self.draws(root).len() ==> {
                    &&& (#[trigger] self.draws(root)[k]).index_count > 0
                    &&& self.draws(root)[k].node < self.node_count()
                    &&& self.draws(root)[k].vao_id == self.vao_of(self.draws(root)[k].node as int)
                    &&& self.draws(root)[k].index_count == self.index_count_of(
                        self.draws(root)[k].node as int,
                    )
                    &&& self.has_path(root, self.draws(root)[k].node)
                },
            forall|y: usize|
                self.has_path(root, y) && self.index_count_of(y as int) > 0 ==> exists|k: int|
                    0 <= k < self.draws(root).len() && (#[trigger] self.draws(root)[k]).node == y,
    {
        let d = self.draws(root);
        let walk = self.visits(root, None);
        self.lemma_draws_follow_visits(root, None);
        self.lemma_walk_shape(root, None);
        self.lemma_walk_draws_sound(walk);
        if self.index_count_of(root as int) > 0 {
            assert(d == seq![self.draw_call_of(root)] + self.child_draws(root, 0));
            assert(d[0] == self.draw_call_of(root));
        }
        assert forall|k: int| 0 <= k < d.len() implies {
            &&& (#[trigger] d[k]).index_count > 0
            &&& d[k].node < self.node_count()
            &&& d[k].vao_id == self.vao_of(d[k].node as int)
            &&& d[k].index_count == self.index_count_of(d[k].node as int)
            &&& self.has_path(root, d[k].node)
        } by {
            assert(self.draws_a_visited_node(walk, self.walk_draws(walk)[k]));
            let j = choose|j: int|
                0 <= j < walk.len() && self.drawable(walk[j].node as int) && self.walk_draws(walk)[k]
                    == self.draw_call_of(#[trigger] walk[j].node);
            assert(self.has_path(root, walk[j].node));
            let p = choose|p: Seq<usize>|
                self.is_path(p) && p[0] == root && p[p.len() - 1] == walk[j].node;
            assert(p[p.len() - 1] < self.node_count());
        }
        assert forall|y: usize| self.has_path(root, y) && self.index_count_of(y as int) > 0 implies exists|
            k: int,
        | 0 <= k < d.len() && (#[trigger] d[k]).node == y by {
            self.law_walk_complete(root, y);
            let j = choose|j: int| 0 <= j < walk.len() && (#[trigger] walk[j]).node == y;
            self.lemma_walk_draws_complete(walk, j);
            let k = choose|k: int|
                0 <= k < self.walk_draws(walk).len() && #[trigger] self.walk_draws(walk)[k]
                    == self.draw_call_of(walk[j].node);
            assert(d[k].node == y);
        }
    }
}

/// Whether a visit is reached directly from node `x`.
pub open spec fn from_parent(x: usize) -> spec_fn(Visit) -> bool {
    |v: Visit| v.parent == Some(x)
}

/// The node of a visit.
pub open spec fn visited_node() -> spec_fn(Visit) -> usize {
    |v: Visit| v.node
}

proof fn lemma_filter_none<A>(s: Seq<A>, pred: spec_fn(A) -> bool)
    requires
        forall|k: int| 0 <= k < s.len() ==> !pred(#[trigger] s[k]),
    ensures
        s.filter(pred) == Seq::<A>::empty(),
    decreases s.len(),
{
    reveal_with_fuel(Seq::filter, 1);
    if s.len() > 0 {
        lemma_filter_none(s.drop_last(), pred);
        assert(!pred(s[s.len() - 1]));
    }
}

impl SceneGraph {
    proof fn lemma_no_way_back(self, x: usize, c: usize)
        requires
            self.inv(),
            x < self.node_count(),
            self.children_of(x as int).contains(c),
        ensures
            !self.has_path(c, x),
    {
        if self.has_path(c, x) {
            let p = choose|p: Seq<usize>| self.is_path(p) && p[0] == c && p[p.len() - 1] == x;
            self.lemma_path_prepend(x, p);
            self.law_no_cycles(seq![x] + p);
        }
    }

    proof fn lemma_subtree_from_parent(self, x: usize, c: usize)
        requires
            self.inv(),
            x < self.node_count(),
            self.children_of(x as int).contains(c),
        ensures
            self.visits(c, Some(x)).filter(from_parent(x)) == seq![Visit { node: c, parent: Some(x) }],
    {
        let j = choose|j: int| 0 <= j < self.children_of(x as int).len() && self.children_of(x as int)[j] == c;
        assert(self.nodes@[x as int].children@[j] == c);
        self.lemma_no_way_back(x, c);
        self.lemma_walk_shape(c, Some(x));
        let v = self.visits(c, Some(x));
        let head = seq![v[0]];
        let tail = v.drop_first();
        assert(v == head + tail);
        assert forall|k: int| 0 <= k < tail.len() implies !(from_parent(x))(#[trigger] tail[k]) by {
            assert(tail[k] == v[k + 1]);
            assert(self.reached_from_earlier(v, k + 1));
            let i = choose|i: int| #[trigger] self.reached_from(v, k + 1, i);
            if v[k + 1].parent == Some(x) {
                assert(v[i].node == x);
                assert(self.has_path(c, v[i].node));
            }
        }
        lemma_filter_none(tail, from_parent(x));
        Seq::filter_distributes_over_add(head, tail, from_parent(x));
        reveal_with_fuel(Seq::filter, 2);
        assert(head.drop_last() =~= Seq::<Visit>::empty());
        assert(head.filter(from_parent(x)) =~= head);
        assert(head.filter(from_parent(x)) + tail.filter(from_parent(x)) =~= head);
    }

    proof fn lemma_children_in_order(self, x: usize, i: int)
        requires
            self.inv(),
            x < self.node_count(),
            0 <= i <= self.children_of(x as int).len(),
        ensures
            self.child_visits(x, i).filter(from_parent(x)).map_values(visited_node())
                == self.children_of(x as int).subrange(i, self.children_of(x as int).len() as int),
        decreases self.children_of(x as int).len() - i,
    {
        let ch = self.children_of(x as int);
        if i < ch.len() {
            let c = ch[i];
            assert(ch.contains(c));
            self.lemma_subtree_from_parent(x, c);
            self.lemma_children_in_order(x, i + 1);
            let a = self.visits(c, Some(x));
            let b = self.child_visits(x, i + 1);
            assert(self.child_visits(x, i) == a + b);
            Seq::filter_distributes_over_add(a, b, from_parent(x));
            let fb = b.filter(from_parent(x));
            assert((seq![Visit { node: c, parent: Some(x) }] + fb).map_values(visited_node())
                =~= seq![c] + fb.map_values(visited_node()));
            assert(ch.subrange(i, ch.len() as int) =~= seq![c] + ch.subrange(i + 1, ch.len() as int));
        } else {
            reveal_with_fuel(Seq::filter, 1);
            assert(self.child_visits(x, i) =~= Seq::<Visit>::empty());
            assert(ch.subrange(i, ch.len() as int) =~= Seq::<usize>::empty());
            assert(Seq::<Visit>::empty().map_values(visited_node()) =~= Seq::<usize>::empty());
        }
    }

    /// In the walk from `root`, the visits reached directly from `root` are
    /// its children, each once per edge, in the order they were added.
    pub proof fn law_children_in_added_order(self, root: usize)
        requires
            self.inv(),
            root < self.node_count(),
        ensures
            self.visits(root, None).filter(from_parent(root)).map_values(visited_node())
                == self.children_of(root as int),
    {
        let head = seq![Visit { node: root, parent: None }];
        let cv = self.child_visits(root, 0);
        assert(self.visits(root, None) == head + cv);
        Seq::filter_distributes_over_add(head, cv, from_parent(root));
        lemma_filter_none(head, from_parent(root));
        assert(head.filter(from_parent(root)) + cv.filter(from_parent(root)) =~= cv.filter(
            from_parent(root),
        ));
        self.lemma_children_in_order(root, 0);
        assert(self.children_of(root as int).subrange(0, self.children_of(root as int).len() as int)
            =~= self.children_of(root as int));
    }
}

} // verus!
