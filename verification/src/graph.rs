//! A directed dependency graph over nodes numbered from zero.

use vstd::prelude::*;

verus! {

/// A directed graph. An edge from `a` to `b` says that `a` blocks `b`:
/// `b` cannot be worked on before `a` is closed.
pub struct DiGraph {
    names: Vec<String>,
    blockers: Vec<Vec<usize>>,
}

impl View for DiGraph {
    type V = Seq<Seq<usize>>;

    /// For each node, the nodes that block it, in the order in which the
    /// edges were added.
    closed spec fn view(&self) -> Seq<Seq<usize>> {
        Seq::new(self.blockers@.len(), |i: int| self.blockers@[i]@)
    }
}

/// Every blocker in `g` is a node of `g`.
pub open spec fn graph_wf(g: Seq<Seq<usize>>) -> bool {
    forall|v: int, j: int| 0 <= v < g.len() && 0 <= j < g[v].len() ==> (#[trigger] g[v][j]) < g.len()
}

impl DiGraph {
    /// The names of the nodes, in the order in which they were added.
    pub closed spec fn names(&self) -> Seq<Seq<char>> {
        Seq::new(self.names@.len(), |i: int| self.names@[i]@)
    }

    /// The graph's invariant: every node has a name, and every blocker is a node.
    pub open spec fn wf(&self) -> bool {
        &&& self.names().len() == self@.len()
        &&& graph_wf(self@)
    }

    /// A graph without nodes.
    pub fn new() -> (g: DiGraph)
        ensures
            g.wf(),
            g@ == Seq::<Seq<usize>>::empty(),
            g.names() == Seq::<Seq<char>>::empty(),
    {
        let g = DiGraph { names: Vec::new(), blockers: Vec::new() };
        assert(g@ =~= Seq::<Seq<usize>>::empty());
        assert(g.names() =~= Seq::<Seq<char>>::empty());
        g
    }

    /// The number of nodes.
    pub fn len(&self) -> (n: usize)
        ensures
            n == self@.len(),
    {
        self.blockers.len()
    }

    /// Whether the graph has no node.
    pub fn is_empty(&self) -> (b: bool)
        ensures
            b == (self@.len() == 0),
    {
        self.blockers.len() == 0
    }

    /// Adds a node that nothing blocks and returns its index.
    pub fn add_node(&mut self, name: &str) -> (index: usize)
        requires
            old(self).wf(),
        ensures
            final(self).wf(),
            index == old(self)@.len(),
            final(self)@ == old(self)@.push(Seq::<usize>::empty()),
            final(self).names() == old(self).names().push(name@),
    {
        let index = self.blockers.len();
        self.names.push(name.to_owned());
        self.blockers.push(Vec::new());
        assert(self@ =~= old(self)@.push(Seq::<usize>::empty()));
        assert(self.names() =~= old(self).names().push(name@));
        index
    }

    /// Adds an edge from `from` to `to`. An edge that names a node outside
    /// the graph is ignored.
    pub fn add_edge(&mut self, from: usize, to: usize)
        requires
            old(self).wf(),
        ensures
            final(self).wf(),
            from < old(self)@.len() && to < old(self)@.len() ==> final(self)@ == old(self)@.update(
                to as int,
                old(self)@[to as int].push(from),
            ),
            !(from < old(self)@.len() && to < old(self)@.len()) ==> final(self)@ == old(self)@,
            final(self).names() == old(self).names(),
    {
        let n = self.blockers.len();
        if from < n && to < n {
            let mut list: Vec<usize> = Vec::new();
            let mut j: usize = 0;
            while j < self.blockers[to].len()
                invariant
                    to < self.blockers@.len(),
                    j <= self.blockers@[to as int]@.len(),
                    list@ == self.blockers@[to as int]@.take(j as int),
                decreases self.blockers@[to as int]@.len() - j,
            {
                list.push(self.blockers[to][j]);
                assert(list@ =~= self.blockers@[to as int]@.take(j + 1));
                j += 1;
            }
            assert(list@ =~= self.blockers@[to as int]@);
            list.push(from);
            self.blockers.set(to, list);
            assert(self@ =~= old(self)@.update(to as int, old(self)@[to as int].push(from)));
        }
    }

    /// The name that node `index` was added under, if there is such a node.
    pub fn name(&self, index: usize) -> (name: Option<&str>)
        requires
            self.wf(),
        ensures
            name.is_some() <==> index < self@.len(),
            name.is_some() ==> name.unwrap()@ == self.names()[index as int],
    {
        if index < self.names.len() {
            Some(self.names[index].as_str())
        } else {
            None
        }
    }

    /// How many nodes block node `v`.
    pub fn blocker_count(&self, v: usize) -> (count: usize)
        requires
            v < self@.len(),
        ensures
            count == self@[v as int].len(),
    {
        self.blockers[v].len()
    }

    /// The `j`-th blocker of node `v`.
    pub fn blocker(&self, v: usize, j: usize) -> (p: usize)
        requires
            v < self@.len(),
            j < self@[v as int].len(),
        ensures
            p == self@[v as int][j as int],
    {
        self.blockers[v][j]
    }
}

} // verus!
