use vstd::prelude::*;

verus! {

/// A package of the resolved set: its short name and the path of its
/// manifest file, whose parent directory is the package's source root.
#[derive(Clone, Debug, PartialEq, Eq)]
pub struct Package {
    pub name: String,
    pub manifest_path: String,
}

/// The resolved dependency graph. A package's identity is its position in
/// `packages`; `deps` holds, for each package, the identities of its direct
/// dependencies in the order in which they are visited.
#[derive(Clone, Debug, PartialEq, Eq)]
pub struct Graph {
    pub packages: Vec<Package>,
    pub deps: Vec<Vec<usize>>,
}

impl Graph {
    /// The number of packages.
    pub open spec fn size(&self) -> nat {
        self.packages@.len()
    }

    /// The short name of package `p`.
    pub open spec fn name(&self, p: int) -> Seq<char> {
        self.packages@[p].name@
    }

    /// The number of direct dependencies of package `p`.
    pub open spec fn degree(&self, p: int) -> nat {
        self.deps@[p]@.len()
    }

    /// The `j`-th direct dependency of package `p`.
    pub open spec fn dep(&self, p: int, j: int) -> int {
        self.deps@[p]@[j] as int
    }

    /// Every package has its list of dependencies, and every dependency is
    /// a package of the graph.
    pub open spec fn wf(&self) -> bool {
        &&& self.deps@.len() == self.packages@.len()
        &&& forall|p: int, j: int|
            0 <= p < self.size() && 0 <= j < self.degree(p) ==> 0 <= #[trigger] self.dep(p, j)
                < self.size()
    }

    /// Package `a` depends directly on package `b`.
    pub open spec fn edge(&self, a: int, b: int) -> bool {
        &&& 0 <= a < self.size()
        &&& exists|j: int| 0 <= j < self.degree(a) && #[trigger] self.dep(a, j) == b
    }

    /// The nodes are packages of the graph, and each depends directly on
    /// the next.
    pub open spec fn is_path(&self, path: Seq<int>) -> bool {
        &&& path.len() >= 1
        &&& forall|i: int| 0 <= i < path.len() ==> 0 <= #[trigger] path[i] < self.size()
        &&& forall|i: int| 0 <= i < path.len() - 1 ==> self.edge(#[trigger] path[i], path[i + 1])
    }

    /// The graph without packages.
    pub fn new() -> (graph: Graph)
        ensures
            graph.wf(),
            graph.size() == 0,
    {
        Graph { packages: Vec::new(), deps: Vec::new() }
    }

    /// Adds a package without dependencies and returns its identity.
    pub fn add_package(&mut self, name: String, manifest_path: String) -> (id: usize)
        requires
            old(self).wf(),
        ensures
            final(self).wf(),
            id == old(self).size(),
            final(self).packages@ == old(self).packages@.push(Package { name, manifest_path }),
            final(self).deps@.len() == old(self).deps@.len() + 1,
            final(self).deps@.drop_last() == old(self).deps@,
            final(self).deps@[id as int]@ == Seq::<usize>::empty(),
    {
        let id = self.packages.len();
        self.packages.push(Package { name, manifest_path });
        let none: Vec<usize> = Vec::new();
        self.deps.push(none);
        assert(self.deps@.drop_last() =~= old(self).deps@);
        assert forall|p: int, j: int|
            0 <= p < self.size() && 0 <= j < self.degree(p) implies 0 <= #[trigger] self.dep(p, j)
            < self.size() by {
            assert(p < old(self).size());
            assert(self.dep(p, j) == old(self).dep(p, j));
        }
        id
    }

    /// Records that package `from` depends directly on package `to`, after
    /// the dependencies it already has. Returns whether both are packages
    /// of the graph; the graph is unchanged if they are not.
    pub fn add_dependency(&mut self, from: usize, to: usize) -> (added: bool)
        requires
            old(self).wf(),
        ensures
            final(self).wf(),
            added == (from < old(self).size() && to < old(self).size()),
            final(self).packages == old(self).packages,
            added ==> final(self).deps@ == old(self).deps@.update(
                from as int,
                final(self).deps@[from as int],
            ) && final(self).deps@[from as int]@ == old(self).deps@[from as int]@.push(to),
            !added ==> final(self).deps == old(self).deps,
    {
        if from >= self.packages.len() || to >= self.packages.len() {
            return false;
        }
        let mut list: Vec<usize> = Vec::new();
        let current = &self.deps[from];
        let mut i: usize = 0;
        while i < current.len()
            invariant
                i <= current@.len(),
                list@ == current@.subrange(0, i as int),
            decreases current@.len() - i,
        {
            list.push(current[i]);
            assert(current@.subrange(0, i + 1) =~= current@.subrange(0, i as int).push(
                current@[i as int],
            ));
            i += 1;
        }
        assert(current@.subrange(0, i as int) =~= current@);
        list.push(to);
        self.deps.set(from, list);
        assert forall|p: int, j: int|
            0 <= p < self.size() && 0 <= j < self.degree(p) implies 0 <= #[trigger] self.dep(p, j)
            < self.size() by {
            if p == from {
                if j < old(self).degree(p) {
                    assert(self.dep(p, j) == old(self).dep(p, j));
                }
            } else {
                assert(self.dep(p, j) == old(self).dep(p, j));
            }
        }
        true
    }

    /// The number of packages.
    pub fn len(&self) -> (n: usize)
        ensures
            n == self.size(),
    {
        self.packages.len()
    }
}

} // verus!
