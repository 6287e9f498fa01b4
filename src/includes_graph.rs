//! The include graph: which file includes which, which files use custom gates,
//! and which declare the pragma that allows them.
use vstd::prelude::*;
use vstd::arithmetic::div_mod::lemma_fundamental_div_mod_converse;
use vstd::set_lib::{lemma_int_range, set_int_range};
use crate::path::{file_name, file_name_of, normalize, normalize_path};
use crate::file_stack::IncludeError;

verus! {

/// One processed file.
pub struct IncludesNode {
    pub path: String,
    pub custom_gates_pragma: bool,
}

/// Files (by insertion index), include relations and the files that use
/// custom gates.
pub struct IncludesGraph {
    nodes: Vec<IncludesNode>,
    /// `(includer, included)`: the includer by normalized path, the included
    /// file by node index, in the order the relations were recorded.
    edges: Vec<(String, usize)>,
    custom_gates_nodes: Vec<usize>,
}

/// The abstract content of an `IncludesGraph`.
pub struct GraphView {
    /// Path and pragma flag of each node.
    pub nodes: Seq<(Seq<char>, bool)>,
    /// Includer path and included node of each recorded relation.
    pub edges: Seq<(Seq<char>, usize)>,
    /// Nodes that use custom gates, in insertion order.
    pub roots: Seq<usize>,
}

impl View for IncludesGraph {
    type V = GraphView;

    closed spec fn view(&self) -> GraphView {
        GraphView {
            nodes: self.nodes@.map_values(|n: IncludesNode| (n.path@, n.custom_gates_pragma)),
            edges: self.edges@.map_values(|e: (String, usize)| (e.0@, e.1)),
            roots: self.custom_gates_nodes@,
        }
    }
}

impl GraphView {
    /// Every recorded index names an existing node.
    pub open spec fn wf(self) -> bool {
        &&& forall|j: int| 0 <= j < self.edges.len() ==> #[trigger] self.edges[j].1 < self.nodes.len()
        &&& forall|k: int| 0 <= k < self.roots.len() ==> #[trigger] self.roots[k] < self.nodes.len()
    }
}

pub open spec fn pair_of(n: nat, k: int) -> (usize, usize) {
    ((k / n as int) as usize, (k % n as int) as usize)
}

/// All ordered pairs of node indices below `n`.
pub open spec fn all_pairs(n: nat) -> Set<(usize, usize)> {
    set_int_range(0, (n * n) as int).map(|k: int| pair_of(n, k))
}

/// Marking one more unused edge as traversed leaves fewer unused edges.
pub proof fn lemma_pair_step(n: nat, t: Set<(usize, usize)>, e: (usize, usize))
    requires
        t.subset_of(all_pairs(n)),
        e.0 < n,
        e.1 < n,
        !t.contains(e),
    ensures
        t.insert(e).subset_of(all_pairs(n)),
        (all_pairs(n) - t.insert(e)).len() < (all_pairs(n) - t).len(),
{
    let s = set_int_range(0, (n * n) as int);
    let f = |k: int| pair_of(n, k);
    lemma_int_range(0, (n * n) as int);
    s.lemma_map_finite(f);
    assert(s.map(f) =~= all_pairs(n));
    let k = e.0 * n + e.1;
    assert(0 <= k < n * n) by (nonlinear_arith)
        requires
            k == e.0 * n + e.1,
            e.0 < n,
            e.1 < n,
    ;
    lemma_fundamental_div_mod_converse(k, n as int, e.0 as int, e.1 as int);
    assert(s.contains(k) && f(k) == e);
    assert(all_pairs(n).contains(e));
    let d = all_pairs(n) - t;
    assert(d.finite());
    assert(all_pairs(n) - t.insert(e) =~= d.remove(e));
}

/// The paths of the nodes along `p`.
pub open spec fn node_paths(g: GraphView, p: Seq<usize>) -> Seq<Seq<char>> {
    p.map_values(|i: usize| g.nodes[i as int].0)
}

/// Depth-first walk from `from`, reached along `prefix` with the edges `t`
/// already used on the way: the walked path is reported whenever its last
/// node lacks the pragma, and every include of `from` whose edge is unused
/// is followed.
pub open spec fn walk(g: GraphView, from: usize, prefix: Seq<usize>, t: Set<(usize, usize)>) -> Seq<Seq<Seq<char>>>
    decreases (all_pairs(g.nodes.len()) - t).len(), g.edges.len() + 1,
{
    if from < g.nodes.len() && t.subset_of(all_pairs(g.nodes.len())) {
        let p = prefix.push(from);
        let own = if g.nodes[from as int].1 {
            Seq::empty()
        } else {
            seq![node_paths(g, p)]
        };
        own + walk_edges(g, from, p, t, 0)
    } else {
        Seq::empty()
    }
}

/// The walks along the relations `j..` whose includer is the node `from`.
pub open spec fn walk_edges(g: GraphView, from: usize, p: Seq<usize>, t: Set<(usize, usize)>, j: nat) -> Seq<Seq<Seq<char>>>
    decreases (all_pairs(g.nodes.len()) - t).len(), g.edges.len() - j,
{
    if from < g.nodes.len() && t.subset_of(all_pairs(g.nodes.len())) && j < g.edges.len() {
        let to = g.edges[j as int].1;
        let rest = walk_edges(g, from, p, t, j + 1);
        if g.edges[j as int].0 == g.nodes[from as int].0 && to < g.nodes.len() && !t.contains((from, to)) {
            proof {
                lemma_pair_step(g.nodes.len(), t, (from, to));
            }
            walk(g, to, p, t.insert((from, to))) + rest
        } else {
            rest
        }
    } else {
        Seq::empty()
    }
}

/// The names joined by ` -> `.
pub open spec fn arrow_join(names: Seq<Seq<char>>) -> Seq<char>
    decreases names.len(),
{
    if names.len() == 0 {
        Seq::empty()
    } else if names.len() == 1 {
        names[0]
    } else {
        arrow_join(names.drop_last()) + seq![' ', '-', '>', ' '] + names.last()
    }
}

/// How a chain of files is shown: the file name of each, joined by ` -> `.
pub open spec fn display(paths: Seq<Seq<char>>) -> Seq<char> {
    arrow_join(paths.map_values(|p: Seq<char>| file_name(p)))
}

/// The walks from the roots `0..k`, concatenated in order.
pub open spec fn walks_from_roots(g: GraphView, k: nat) -> Seq<Seq<Seq<char>>>
    decreases k,
{
    if k == 0 || k > g.roots.len() {
        Seq::empty()
    } else {
        walks_from_roots(g, (k - 1) as nat) + walk(g, g.roots[k - 1], Seq::empty(), Set::empty())
    }
}

/// Every chain from a custom-gates user to a file without the pragma.
pub open spec fn problematic_paths(g: GraphView) -> Seq<Seq<Seq<char>>> {
    walks_from_roots(g, g.roots.len())
}

impl IncludesGraph {
    /// An empty graph.
    pub fn new() -> (r: IncludesGraph)
        ensures
            r@.wf(),
            r@.nodes == Seq::<(Seq<char>, bool)>::empty(),
            r@.edges == Seq::<(Seq<char>, usize)>::empty(),
            r@.roots == Seq::<usize>::empty(),
    {
        let r = IncludesGraph { nodes: Vec::new(), edges: Vec::new(), custom_gates_nodes: Vec::new() };
        assert(r@.nodes =~= Seq::<(Seq<char>, bool)>::empty());
        assert(r@.edges =~= Seq::<(Seq<char>, usize)>::empty());
        r
    }

    /// Appends a node for the file at `path`; when the file uses custom gates
    /// the node becomes a starting point of the walks.
    pub fn add_node(&mut self, path: String, custom_gates_pragma: bool, custom_gates_usage: bool)
        requires
            old(self)@.wf(),
            old(self)@.nodes.len() < usize::MAX,
        ensures
            final(self)@.wf(),
            final(self)@.nodes == old(self)@.nodes.push((path@, custom_gates_pragma)),
            final(self)@.edges == old(self)@.edges,
            final(self)@.roots == (if custom_gates_usage {
                old(self)@.roots.push(old(self)@.nodes.len() as usize)
            } else {
                old(self)@.roots
            }),
    {
        let ghost path_view = path@;
        self.nodes.push(IncludesNode { path, custom_gates_pragma });
        assert(self@.nodes =~= old(self)@.nodes.push((path_view, custom_gates_pragma)));
        assert(self@.edges =~= old(self)@.edges);
        if custom_gates_usage {
            self.custom_gates_nodes.push(self.nodes.len() - 1);
        }
        assert(forall|j: int| 0 <= j < self@.edges.len() ==> #[trigger] self@.edges[j].1 == old(self)@.edges[j].1);
        assert(forall|k: int| 0 <= k < old(self)@.roots.len() ==> #[trigger] self@.roots[k] == old(self)@.roots[k]);
    }

    /// Records that the most recently added node is included by the file at
    /// `old_path` (normalized first).
    pub fn add_edge(&mut self, old_path: String) -> (r: Result<(), IncludeError>)
        requires
            old(self)@.wf(),
            old(self)@.nodes.len() > 0,
        ensures
            r is Ok,
            final(self)@.wf(),
            final(self)@.nodes == old(self)@.nodes,
            final(self)@.edges == old(self)@.edges.push(
                (normalize(old_path@), (old(self)@.nodes.len() - 1) as usize),
            ),
            final(self)@.roots == old(self)@.roots,
    {
        let path = normalize_path(old_path.as_str());
        let last = self.nodes.len() - 1;
        let ghost path_view = path@;
        self.edges.push((path, last));
        assert(self@.edges =~= old(self)@.edges.push((path_view, last)));
        assert(self@.nodes =~= old(self)@.nodes);
        assert(forall|j: int| 0 <= j < old(self)@.edges.len() ==> #[trigger] self@.edges[j].1 == old(self)@.edges[j].1);
        assert(self@.edges[old(self)@.edges.len() as int].1 == last);
        assert(self@.roots == old(self)@.roots);
        Ok(())
    }

    /// The paths of the nodes listed in `path`.
    fn path_names(&self, path: &Vec<usize>) -> (r: Vec<String>)
        requires
            forall|i: int| 0 <= i < path.len() ==> path[i] < self@.nodes.len(),
        ensures
            r.deep_view() == node_paths(self@, path@),
    {
        let mut r: Vec<String> = Vec::new();
        let mut i: usize = 0;
        while i < path.len()
            invariant
                i <= path.len(),
                forall|k: int| 0 <= k < path.len() ==> path[k] < self@.nodes.len(),
                r.deep_view() == node_paths(self@, path@.subrange(0, i as int)),
            decreases path.len() - i,
        {
            let name = self.nodes[path[i]].path.clone();
            let ghost r0 = r.deep_view();
            r.push(name);
            assert(self@.nodes[path[i as int] as int].0 == name@);
            assert(r.deep_view() =~= r0.push(name@));
            assert(path@.subrange(0, i + 1) =~= path@.subrange(0, i as int).push(path[i as int]));
            assert(r.deep_view() =~= node_paths(self@, path@.subrange(0, i + 1)));
            i = i + 1;
        }
        assert(path@.subrange(0, path.len() as int) =~= path@);
        r
    }

    fn has_traversed(traversed: &Vec<(usize, usize)>, from: usize, to: usize) -> (r: bool)
        ensures
            r == traversed@.to_set().contains((from, to)),
    {
        let mut i: usize = 0;
        while i < traversed.len()
            invariant
                i <= traversed.len(),
                forall|k: int| 0 <= k < i ==> traversed@[k] != (from, to),
            decreases traversed.len() - i,
        {
            if traversed[i].0 == from && traversed[i].1 == to {
                assert(traversed@.contains((from, to)));
                return true;
            }
            i = i + 1;
        }
        assert(!traversed@.contains((from, to)));
        false
    }

    /// Walks from `from`, reached along `path` with the edges `traversed`
    /// already used, and appends every problematic path found to `out`.
    /// `path` and `traversed` are used as stacks and come back as they were.
    fn traverse(
        &self,
        from: usize,
        path: &mut Vec<usize>,
        traversed: &mut Vec<(usize, usize)>,
        out: &mut Vec<Vec<String>>,
    )
        requires
            self@.wf(),
            from < self@.nodes.len(),
            forall|i: int| 0 <= i < old(path).len() ==> old(path)[i] < self@.nodes.len(),
            old(traversed)@.to_set().subset_of(all_pairs(self@.nodes.len())),
        ensures
            final(path)@ == old(path)@,
            final(traversed)@ == old(traversed)@,
            final(out).deep_view() == old(out).deep_view() + walk(
                self@,
                from,
                old(path)@,
                old(traversed)@.to_set(),
            ),
        decreases (all_pairs(self@.nodes.len()) - old(traversed)@.to_set()).len(),
    {
        let ghost g = self@;
        let ghost n = g.nodes.len();
        let ghost t = traversed@.to_set();
        let ghost tr = traversed@;
        let ghost out0 = out.deep_view();
        path.push(from);
        let ghost p = path@;
        if !self.nodes[from].custom_gates_pragma {
            let names = self.path_names(path);
            out.push(names);
        }
        let ghost base = out.deep_view();
        assert(base =~= out0 + (if g.nodes[from as int].1 {
            Seq::empty()
        } else {
            seq![node_paths(g, p)]
        }));
        let mut j: usize = 0;
        while j < self.edges.len()
            invariant
                g == self@,
                n == g.nodes.len(),
                g.wf(),
                from < n,
                t.subset_of(all_pairs(n)),
                j <= self.edges.len(),
                path@ == p,
                traversed@ == tr,
                t == tr.to_set(),
                t == old(traversed)@.to_set(),
                forall|i: int| 0 <= i < p.len() ==> p[i] < n,
                out.deep_view() + walk_edges(g, from, p, t, j as nat)
                    == base + walk_edges(g, from, p, t, 0),
            decreases self.edges.len() - j,
        {
            let to = self.edges[j].1;
            assert(g.edges[j as int].1 == to);
            let ghost out_j = out.deep_view();
            let ghost rest = walk_edges(g, from, p, t, (j + 1) as nat);
            if self.edges[j].0 == self.nodes[from].path && !Self::has_traversed(traversed, from, to) {
                proof {
                    lemma_pair_step(n, t, (from, to));
                }
                traversed.push((from, to));
                proof {
                    tr.lemma_push_to_set_commute((from, to));
                }
                assert(traversed@.to_set() =~= t.insert((from, to)));
                self.traverse(to, path, traversed, out);
                traversed.pop();
                assert(traversed@ =~= tr);
                assert(walk_edges(g, from, p, t, j as nat) == walk(g, to, p, t.insert((from, to))) + rest);
                assert(out.deep_view() + rest =~= out_j + walk_edges(g, from, p, t, j as nat));
            } else {
                assert(walk_edges(g, from, p, t, j as nat) == rest);
            }
            j = j + 1;
        }
        assert(out.deep_view() =~= base + walk_edges(g, from, p, t, 0));
        path.pop();
        assert(path@ =~= old(path)@);
    }

    /// Every chain of includes that leads from a file using custom gates to a
    /// file without the custom-gates pragma, each as the paths of its files;
    /// walks start at the custom-gates users in the order they were added.
    pub fn get_problematic_paths(&self) -> (r: Vec<Vec<String>>)
        requires
            self@.wf(),
        ensures
            r.deep_view() == problematic_paths(self@),
    {
        let mut out: Vec<Vec<String>> = Vec::new();
        let mut k: usize = 0;
        assert(out.deep_view() =~= walks_from_roots(self@, 0));
        while k < self.custom_gates_nodes.len()
            invariant
                self@.wf(),
                k <= self.custom_gates_nodes.len(),
                out.deep_view() == walks_from_roots(self@, k as nat),
            decreases self.custom_gates_nodes.len() - k,
        {
            let mut path: Vec<usize> = Vec::new();
            let mut traversed: Vec<(usize, usize)> = Vec::new();
            assert(traversed@.to_set() =~= Set::<(usize, usize)>::empty());
            let from = self.custom_gates_nodes[k];
            assert(self@.roots[k as int] == from);
            self.traverse(from, &mut path, &mut traversed, &mut out);
            assert(path@ =~= Seq::<usize>::empty());
            k = k + 1;
        }
        out
    }

    /// Shows a problematic path as `a.circom -> b.circom -> ...`, naming each
    /// file by its last segment.
    pub fn display_path(path: &Vec<String>) -> (r: String)
        requires
            path.len() > 0,
        ensures
            r@ == display(path.deep_view()),
    {
        let ghost names = path.deep_view().map_values(|p: Seq<char>| file_name(p));
        let mut out = file_name_of(path[0].as_str());
        assert(names.subrange(0, 1) =~= seq![names[0]]);
        let mut i: usize = 1;
        while i < path.len()
            invariant
                1 <= i <= path.len(),
                names == path.deep_view().map_values(|p: Seq<char>| file_name(p)),
                out@ == arrow_join(names.subrange(0, i as int)),
            decreases path.len() - i,
        {
            let name = file_name_of(path[i].as_str());
            proof {
                reveal_strlit(" -> ");
            }
            out.append(" -> ");
            out.append(name.as_str());
            let ghost after = names.subrange(0, i + 1);
            assert(after.drop_last() =~= names.subrange(0, i as int));
            assert(out@ =~= arrow_join(after));
            i = i + 1;
        }
        assert(names.subrange(0, path.len() as int) =~= names);
        out
    }
}

} // verus!
