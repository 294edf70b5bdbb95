use vstd::prelude::*;

verus! {

/// A directed edge to node `to` with weight `weight`.
#[derive(Debug, Clone, Copy, PartialEq, Eq, Structural)]
pub struct Edge {
    pub to: usize,
    pub weight: u32,
}

/// A directed, weighted graph stored as adjacency lists, with a label per node.
pub struct Graph {
    adj: Vec<Vec<Edge>>,
    labels: Vec<String>,
}

impl Graph {
    /// The outgoing edges of each node, in insertion order.
    pub closed spec fn edges(&self) -> Seq<Seq<Edge>> {
        self.adj@.map_values(|row: Vec<Edge>| row@)
    }

    /// The label of each node.
    pub closed spec fn labels(&self) -> Seq<Seq<char>> {
        self.labels@.map_values(|l: String| l@)
    }

    /// One adjacency list and one label per node.
    pub open spec fn wf(&self) -> bool {
        self.edges().len() == self.labels().len()
    }

    /// A graph with one node per label and no edges.
    pub fn new(labels: Vec<&str>) -> (r: Graph)
        ensures
            r.wf(),
            r.labels() == labels@.map_values(|l: &str| l@),
            r.edges() == Seq::new(labels@.len(), |i: int| Seq::<Edge>::empty()),
    {
        let mut adj: Vec<Vec<Edge>> = Vec::new();
        let mut owned: Vec<String> = Vec::new();
        let mut i: usize = 0;
        while i < labels.len()
            invariant
                i <= labels@.len(),
                adj@.len() == i,
                owned@.len() == i,
                forall|j: int| 0 <= j < i ==> (#[trigger] adj@[j])@ == Seq::<Edge>::empty(),
                forall|j: int| 0 <= j < i ==> (#[trigger] owned@[j])@ == labels@[j]@,
            decreases labels@.len() - i,
        {
            adj.push(Vec::new());
            owned.push(labels[i].to_owned());
            i += 1;
        }
        let g = Graph { adj, labels: owned };
        assert(g.labels() =~= labels@.map_values(|l: &str| l@));
        assert(g.edges() =~= Seq::new(labels@.len(), |i: int| Seq::<Edge>::empty()));
        g
    }

    /// Add a directed edge from `from` to `to` with the given weight.
    pub fn add_edge(&mut self, from: usize, to: usize, weight: u32)
        requires
            old(self).wf(),
            from < old(self).edges().len(),
        ensures
            final(self).wf(),
            final(self).labels() == old(self).labels(),
            final(self).edges() == old(self).edges().update(
                from as int,
                old(self).edges()[from as int].push(Edge { to, weight }),
            ),
    {
        self.adj[from].push(Edge { to, weight });
        assert(self.edges() =~= old(self).edges().update(
            from as int,
            old(self).edges()[from as int].push(Edge { to, weight }),
        ));
        assert(self.labels() =~= old(self).labels());
    }

    /// The outgoing edges of node `u`.
    pub fn neighbors(&self, u: usize) -> (r: &[Edge])
        requires
            u < self.edges().len(),
        ensures
            r@ == self.edges()[u as int],
    {
        self.adj[u].as_slice()
    }

    /// Number of nodes.
    pub fn num_nodes(&self) -> (r: usize)
        ensures
            r == self.edges().len(),
    {
        self.adj.len()
    }

    /// Label of node `node`.
    pub fn label(&self, node: usize) -> (r: &str)
        requires
            self.wf(),
            node < self.edges().len(),
        ensures
            r@ == self.labels()[node as int],
    {
        self.labels[node].as_str()
    }

    /// The first node whose label is `label`, if any.
    pub fn node_index(&self, label: &str) -> (r: Option<usize>)
        ensures
            match r {
                Some(i) => i < self.labels().len() && self.labels()[i as int] == label@ && forall|
                    j: int,
                | 0 <= j < i ==> self.labels()[j] != label@,
                None => forall|j: int| 0 <= j < self.labels().len() ==> self.labels()[j] != label@,
            },
    {
        let target = label.to_owned();
        let mut i: usize = 0;
        while i < self.labels.len()
            invariant
                i <= self.labels@.len(),
                target@ == label@,
                forall|j: int| 0 <= j < i ==> self.labels()[j] != label@,
            decreases self.labels@.len() - i,
        {
            if self.labels[i] == target {
                return Some(i);
            }
            i += 1;
        }
        None
    }
}

/// The benchmark graph, nodes `A`..`E`:
/// `A -2-> B -1-> D -4-> E` and `A -10-> C -0-> E`.
pub fn build_benchmark_graph() -> (g: Graph)
    ensures
        g.wf(),
        g.labels() == seq!["A"@, "B"@, "C"@, "D"@, "E"@],
        g.edges() == seq![
            seq![Edge { to: 1, weight: 2 }, Edge { to: 2, weight: 10 }],
            seq![Edge { to: 3, weight: 1 }],
            seq![Edge { to: 4, weight: 0 }],
            seq![Edge { to: 4, weight: 4 }],
            Seq::<Edge>::empty(),
        ],
{
    let mut g = Graph::new(vec!["A", "B", "C", "D", "E"]);
    assert(g.edges().len() == 5);
    assert(g.edges()[0] == Seq::<Edge>::empty());
    assert(g.edges()[4] == Seq::<Edge>::empty());
    g.add_edge(0, 1, 2);
    g.add_edge(0, 2, 10);
    g.add_edge(1, 3, 1);
    g.add_edge(3, 4, 4);
    g.add_edge(2, 4, 0);
    assert(g.edges() =~~= seq![
        seq![Edge { to: 1, weight: 2 }, Edge { to: 2, weight: 10 }],
        seq![Edge { to: 3, weight: 1 }],
        seq![Edge { to: 4, weight: 0 }],
        seq![Edge { to: 4, weight: 4 }],
        Seq::<Edge>::empty(),
    ]);
    assert(g.labels() =~= seq!["A"@, "B"@, "C"@, "D"@, "E"@]);
    g
}

} // verus!
