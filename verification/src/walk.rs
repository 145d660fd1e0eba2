use vstd::prelude::*;
use vstd::string::*;
use crate::graph::Graph;
use crate::progress::{
    advance, after, blocked, budget, degree_bound, descend, lemma_advance, lemma_cycle, lemma_degree_bound,
    lemma_descend, lemma_finished, lemma_push_contains, lemma_retire, lemma_start, linked, next_dep,
    patches, retire,
    settled, start, stepped, walk_ok, Progress, Visit,
};
use crate::reach::{
    cyclic, induced, induced_all, lemma_induced_empty, lemma_needs_patch_unfold,
    lemma_root_visited, lemma_visited_step, loops, needs_patch, redirected, replacement_for,
    targeted, visited,
};
use crate::rules::RuleSet;
use crate::source::{Replacement, Source, Substitutions};
use crate::text::{child_path, join_path};

verus! {

/// One visit in progress: the package, the number of its direct
/// dependencies that have been taken up, and the substitutions that they
/// have induced so far.
#[derive(Clone, Debug, PartialEq, Eq)]
pub struct Frame {
    pub package: usize,
    pub cursor: usize,
    pub induced: Substitutions,
}

/// One thing that the walk asks to be done on disk.
#[derive(Clone, Debug, PartialEq, Eq)]
pub enum Action {
    /// Copy the source tree of `package` to `directory`, unless that
    /// exists, and apply `substitutions` to the manifest of the copy.
    Materialize { package: usize, directory: String, substitutions: Substitutions },
    /// Apply `substitutions` to the manifest of the root package in place.
    RewriteRoot { substitutions: Substitutions },
}

/// What a walk has decided: the actions in the order in which they are due,
/// and the package at which a dependency cycle stopped the walk, if one did.
#[derive(Clone, Debug, PartialEq, Eq)]
pub struct Plan {
    pub actions: Vec<Action>,
    pub cycle: Option<usize>,
}

impl Action {
    /// The package whose manifest the action rewrites.
    pub open spec fn subject(self, root: int) -> int {
        match self {
            Action::Materialize { package, .. } => package as int,
            Action::RewriteRoot { .. } => root,
        }
    }

    /// The substitutions that the action applies.
    pub open spec fn changes(self) -> Substitutions {
        match self {
            Action::Materialize { substitutions, .. } => substitutions,
            Action::RewriteRoot { substitutions } => substitutions,
        }
    }

    /// The action is due in a walk from `root`: its package is visited and
    /// needs a patch, it applies exactly the substitutions that the
    /// package's dependencies induce, and a copy is made of a package other
    /// than the root, in its directory under the working directory.
    pub open spec fn due(
        self,
        g: &Graph,
        rules: Map<Seq<char>, Seq<char>>,
        workdir: Seq<char>,
        root: int,
    ) -> bool {
        let v = self.subject(root);
        &&& 0 <= v < g.size()
        &&& visited(g, rules, root, v)
        &&& needs_patch(g, rules, v)
        &&& self.changes().wf()
        &&& self.changes()@ == induced_all(g, rules, workdir, v)
        &&& match self {
            Action::Materialize { package, directory, .. } => package != root && directory@
                == child_path(workdir, g.name(v)),
            Action::RewriteRoot { .. } => true,
        }
    }
}

/// The actions are due, no package is the subject of two, and a package
/// comes after those of its dependencies that are patched too.
pub open spec fn actions_ok(
    g: &Graph,
    rules: Map<Seq<char>, Seq<char>>,
    workdir: Seq<char>,
    root: int,
    actions: Seq<Action>,
) -> bool {
    &&& forall|a: int| 0 <= a < actions.len() ==> (#[trigger] actions[a]).due(g, rules, workdir, root)
    &&& forall|a: int, b: int|
        0 <= a < b < actions.len() ==> (#[trigger] actions[a]).subject(root) != (
        #[trigger] actions[b]).subject(root)
    &&& forall|a: int, j: int|
        0 <= a < actions.len() && 0 <= j < g.degree(actions[a].subject(root)) && !targeted(
            g,
            rules,
            #[trigger] g.dep(actions[a].subject(root), j),
        ) && needs_patch(g, rules, g.dep(actions[a].subject(root), j)) ==> exists|b: int|
            0 <= b < a && actions[b].subject(root) == g.dep(actions[a].subject(root), j)
}

/// The frames are the visits of the abstract state, each with the
/// substitutions that its settled dependencies induce.
pub open spec fn frames_match(
    g: &Graph,
    rules: Map<Seq<char>, Seq<char>>,
    workdir: Seq<char>,
    frames: Seq<Frame>,
    stack: Seq<Visit>,
) -> bool {
    &&& frames.len() == stack.len()
    &&& forall|i: int|
        0 <= i < frames.len() ==> {
            &&& (#[trigger] frames[i]).package == stack[i].package
            &&& frames[i].cursor == stack[i].cursor
            &&& frames[i].induced.wf()
            &&& frames[i].induced@ == induced(
                g,
                rules,
                workdir,
                stack[i].package,
                settled(stack, i),
            )
        }
}

/// The actions so far are the copies of the abstract state, in order.
pub open spec fn copies_match(
    g: &Graph,
    rules: Map<Seq<char>, Seq<char>>,
    workdir: Seq<char>,
    actions: Seq<Action>,
    copies: Seq<int>,
) -> bool {
    &&& actions.len() == copies.len()
    &&& forall|a: int|
        0 <= a < actions.len() ==> match #[trigger] actions[a] {
            Action::Materialize { package, directory, substitutions } => {
                &&& package == copies[a]
                &&& directory@ == child_path(workdir, g.name(copies[a]))
                &&& substitutions.wf()
                &&& substitutions@ == induced_all(g, rules, workdir, copies[a])
            },
            Action::RewriteRoot { .. } => false,
        }
}

/// The flags mark the packages that have been materialized.
pub open spec fn flags_match(g: &Graph, flags: Seq<bool>, copies: Seq<int>) -> bool {
    &&& flags.len() == g.size()
    &&& forall|v: int| 0 <= v < flags.len() ==> #[trigger] flags[v] == copies.contains(v)
}

/// Whether a visit of `package` is in progress.
fn on_stack(stack: &Vec<Frame>, package: usize) -> (found: Option<usize>)
    ensures
        match found {
            Some(i) => i < stack@.len() && stack@[i as int].package == package,
            None => forall|i: int| 0 <= i < stack@.len() ==> (#[trigger] stack@[i]).package
                != package,
        },
{
    let mut i: usize = 0;
    while i < stack.len()
        invariant
            i <= stack@.len(),
            forall|k: int| 0 <= k < i ==> (#[trigger] stack@[k]).package != package,
        decreases stack@.len() - i,
    {
        if stack[i].package == package {
            return Some(i);
        }
        i += 1;
    }
    None
}

/// A list of `n` flags, none of them set.
fn cleared(n: usize) -> (flags: Vec<bool>)
    ensures
        flags@.len() == n,
        forall|i: int| 0 <= i < n ==> !(#[trigger] flags@[i]),
{
    let mut flags: Vec<bool> = Vec::new();
    while flags.len() < n
        invariant
            flags@.len() <= n,
            forall|i: int| 0 <= i < flags@.len() ==> !(#[trigger] flags@[i]),
        decreases n - flags@.len(),
    {
        flags.push(false);
    }
    flags
}

impl Plan {
    /// The plan is what the walk from `root` decides: it reports a cycle
    /// exactly if there is one among the packages that the walk visits; its
    /// actions are due and in order; the root's manifest is rewritten last, in
    /// place, and only by a walk that met no cycle; and such a walk leaves
    /// out no visited package that needs a patch.
    pub open spec fn fulfils(
        self,
        g: &Graph,
        rules: Map<Seq<char>, Seq<char>>,
        workdir: Seq<char>,
        root: int,
    ) -> bool {
        &&& self.cycle is Some <==> cyclic(g, rules, root)
        &&& self.cycle matches Some(c) ==> exists|path: Seq<int>| #[trigger]
            loops(g, rules, root, path) && path[0] == c
        &&& actions_ok(g, rules, workdir, root, self.actions@)
        &&& forall|a: int|
            0 <= a < self.actions@.len() ==> ((#[trigger] self.actions@[a]) is RewriteRoot <==> a
                == self.actions@.len() - 1 && self.cycle is None && needs_patch(g, rules, root))
        &&& self.cycle is None ==> forall|v: int|
            visited(g, rules, root, v) && needs_patch(g, rules, v) ==> exists|a: int|
                0 <= a < self.actions@.len() && (#[trigger] self.actions@[a]).subject(root) == v
        &&& exists|n: nat| self.ends(g, rules, root, #[trigger] after(g, rules, root, n))
    }

    /// The plan is that of a walk which stopped in the state `p`: its copies
    /// are those of the walk, in order, and the walk has ended, or is
    /// stopped by a cycle at the package that the plan reports.
    pub open spec fn ends(
        self,
        g: &Graph,
        rules: Map<Seq<char>, Seq<char>>,
        root: int,
        p: Progress,
    ) -> bool {
        &&& match self.cycle {
            Some(c) => blocked(g, rules, p) && next_dep(g, p) == c,
            None => p.stack.len() == 0,
        }
        &&& self.actions@.len() == p.copies.len() + if self.cycle is None && needs_patch(
            g,
            rules,
            root,
        ) {
            1int
        } else {
            0int
        }
        &&& forall|a: int|
            0 <= a < p.copies.len() ==> (#[trigger] self.actions@[a]) is Materialize
                && self.actions@[a].subject(root) == p.copies[a]
    }
}

/// The copies made so far are due and in order.
proof fn lemma_copies_due(
    g: &Graph,
    rules: Map<Seq<char>, Seq<char>>,
    workdir: Seq<char>,
    root: int,
    actions: Seq<Action>,
    p: Progress,
)
    requires
        walk_ok(g, rules, root, p),
        copies_match(g, rules, workdir, actions, p.copies),
    ensures
        actions_ok(g, rules, workdir, root, actions),
        forall|a: int|
            0 <= a < actions.len() ==> (#[trigger] actions[a]).subject(root) == p.copies[a]
                && !(actions[a] is RewriteRoot),
{
    assert forall|a: int| 0 <= a < actions.len() implies (#[trigger] actions[a]).subject(root)
        == p.copies[a] && !(actions[a] is RewriteRoot) && actions[a].due(
        g,
        rules,
        workdir,
        root,
    ) by {
        assert(p.done.contains(p.copies[a]));
        assert(p.copies.contains(p.copies[a]));
    }
    assert forall|a: int, j: int|
        0 <= a < actions.len() && 0 <= j < g.degree(actions[a].subject(root)) && !targeted(
            g,
            rules,
            #[trigger] g.dep(actions[a].subject(root), j),
        ) && needs_patch(g, rules, g.dep(actions[a].subject(root), j)) implies exists|b: int|
        0 <= b < a && actions[b].subject(root) == g.dep(actions[a].subject(root), j) by {
        assert(actions[a].subject(root) == p.copies[a]);
        let d = g.dep(p.copies[a], j);
        let b = choose|b: int| 0 <= b < a && p.copies[b] == d;
        assert(actions[b].subject(root) == p.copies[b]);
    }
}

/// A walk that ended without a cycle, with the root's manifest rewritten
/// where the root needs a patch, has made its plan.
proof fn lemma_plan_complete(
    g: &Graph,
    rules: Map<Seq<char>, Seq<char>>,
    workdir: Seq<char>,
    root: int,
    copies: Seq<Action>,
    plan: Plan,
    p: Progress,
    steps: nat,
)
    requires
        walk_ok(g, rules, root, p),
        p.stack.len() == 0,
        p == after(g, rules, root, steps),
        copies_match(g, rules, workdir, copies, p.copies),
        plan.cycle is None,
        needs_patch(g, rules, root) ==> plan.actions@.len() == copies.len() + 1
            && plan.actions@.drop_last() == copies && plan.actions@.last() is RewriteRoot
            && plan.actions@.last().changes().wf() && plan.actions@.last().changes()@
            == induced_all(g, rules, workdir, root),
        !needs_patch(g, rules, root) ==> plan.actions@ == copies,
    ensures
        plan.fulfils(g, rules, workdir, root),
{
    let actions = plan.actions@;
    lemma_copies_due(g, rules, workdir, root, copies, p);
    lemma_finished(g, rules, root, p);
    lemma_root_visited(g, rules, root);
    assert forall|a: int| 0 <= a < copies.len() implies actions[a] == copies[a] by {
        if needs_patch(g, rules, root) {
            assert(actions.drop_last()[a] == actions[a]);
        }
    }
    assert forall|a: int| 0 <= a < actions.len() implies (#[trigger] actions[a]).due(
        g,
        rules,
        workdir,
        root,
    ) by {
        if a < copies.len() {
            assert(copies[a].due(g, rules, workdir, root));
        }
    }
    assert forall|a: int, b: int| 0 <= a < b < actions.len() implies (
    #[trigger] actions[a]).subject(root) != (#[trigger] actions[b]).subject(root) by {
        assert(copies[a].subject(root) == p.copies[a]);
        if b < copies.len() {
            assert(copies[b].subject(root) == p.copies[b]);
        }
    }
    assert forall|a: int, j: int|
        0 <= a < actions.len() && 0 <= j < g.degree(actions[a].subject(root)) && !targeted(
            g,
            rules,
            #[trigger] g.dep(actions[a].subject(root), j),
        ) && needs_patch(g, rules, g.dep(actions[a].subject(root), j)) implies exists|b: int|
        0 <= b < a && actions[b].subject(root) == g.dep(actions[a].subject(root), j) by {
        let d = g.dep(actions[a].subject(root), j);
        if a < copies.len() {
            assert(actions[a] == copies[a]);
            let b = choose|b: int|
                0 <= b < a && copies[b].subject(root) == g.dep(copies[a].subject(root), j);
            assert(actions[b] == copies[b]);
        } else {
            lemma_visited_step(g, rules, root, root, j);
            if d == root {
                let path = seq![root, root];
                assert(g.is_path(path)) by {
                    assert forall|i: int| 0 <= i < path.len() - 1 implies g.edge(
                        #[trigger] path[i],
                        path[i + 1],
                    ) by {
                        assert(g.dep(root, j) == path[1]);
                    }
                }
                assert(loops(g, rules, root, path));
            }
            assert(p.copies.contains(d));
            let b = choose|b: int| 0 <= b < p.copies.len() && p.copies[b] == d;
            assert(actions[b] == copies[b]);
            assert(copies[b].subject(root) == p.copies[b]);
        }
    }
    assert forall|v: int|
        visited(g, rules, root, v) && needs_patch(g, rules, v) implies exists|a: int|
        0 <= a < actions.len() && (#[trigger] actions[a]).subject(root) == v by {
        if v == root {
            assert(actions[actions.len() - 1].subject(root) == v);
        } else {
            assert(p.copies.contains(v));
            let a = choose|a: int| 0 <= a < p.copies.len() && p.copies[a] == v;
            assert(actions[a] == copies[a]);
            assert(copies[a].subject(root) == p.copies[a]);
        }
    }
    assert forall|a: int| 0 <= a < actions.len() implies ((#[trigger] actions[a]) is RewriteRoot
        <==> a == actions.len() - 1 && plan.cycle is None && needs_patch(g, rules, root)) by {
        if a < copies.len() {
            assert(actions[a] == copies[a]);
        }
    }
    assert(plan.ends(g, rules, root, after(g, rules, root, steps))) by {
        assert forall|a: int| 0 <= a < p.copies.len() implies (#[trigger] actions[a])
            is Materialize && actions[a].subject(root) == p.copies[a] by {
            assert(actions[a] == copies[a]);
        }
    }
}

/// A walk that a cycle stopped has made its plan.
proof fn lemma_plan_stopped(
    g: &Graph,
    rules: Map<Seq<char>, Seq<char>>,
    workdir: Seq<char>,
    root: int,
    plan: Plan,
    p: Progress,
    steps: nat,
    at: int,
)
    requires
        walk_ok(g, rules, root, p),
        p == after(g, rules, root, steps),
        copies_match(g, rules, workdir, plan.actions@, p.copies),
        p.stack.len() > 0,
        p.stack.last().cursor < g.degree(p.stack.last().package),
        !targeted(g, rules, next_dep(g, p)),
        !p.copies.contains(next_dep(g, p)),
        0 <= at < p.stack.len(),
        p.stack[at].package == next_dep(g, p),
        plan.cycle == Some(next_dep(g, p) as usize),
        0 <= next_dep(g, p) <= usize::MAX,
    ensures
        plan.fulfils(g, rules, workdir, root),
{
    let path = lemma_cycle(g, rules, root, p, at);
    lemma_copies_due(g, rules, workdir, root, plan.actions@, p);
    assert(blocked(g, rules, p));
    assert(plan.ends(g, rules, root, after(g, rules, root, steps)));
}

/// The frames still match after the top visit took up a dependency that is
/// redirected.
proof fn lemma_frames_advance(
    g: &Graph,
    rules: Map<Seq<char>, Seq<char>>,
    workdir: Seq<char>,
    prior: Seq<Frame>,
    later: Seq<Frame>,
    p: Progress,
)
    requires
        frames_match(g, rules, workdir, prior, p.stack),
        p.stack.len() > 0,
        p.stack.last().cursor < g.degree(p.stack.last().package),
        redirected(g, rules, next_dep(g, p)),
        later.len() == prior.len(),
        later.drop_last() == prior.drop_last(),
        later.last().package == prior.last().package,
        later.last().cursor == prior.last().cursor + 1,
        later.last().induced.wf(),
        later.last().induced@ == prior.last().induced@.insert(
            g.name(next_dep(g, p)),
            replacement_for(g, rules, workdir, next_dep(g, p)),
        ),
    ensures
        frames_match(g, rules, workdir, later, advance(p).stack),
{
    let stack = advance(p).stack;
    let top = prior.len() - 1;
    assert forall|i: int| 0 <= i < later.len() implies {
        &&& (#[trigger] later[i]).package == stack[i].package
        &&& later[i].cursor == stack[i].cursor
        &&& later[i].induced.wf()
        &&& later[i].induced@ == induced(g, rules, workdir, stack[i].package, settled(stack, i))
    } by {
        if i < top {
            assert(later[i] == later.drop_last()[i]);
            assert(prior[i] == prior.drop_last()[i]);
            assert(stack[i] == p.stack[i]);
            assert(settled(stack, i) == settled(p.stack, i));
        } else {
            assert(settled(p.stack, top) == p.stack[top].cursor);
        }
    }
}

/// The frames still match after the walk descended into the next
/// dependency of the top visit.
proof fn lemma_frames_descend(
    g: &Graph,
    rules: Map<Seq<char>, Seq<char>>,
    workdir: Seq<char>,
    prior: Seq<Frame>,
    later: Seq<Frame>,
    p: Progress,
)
    requires
        frames_match(g, rules, workdir, prior, p.stack),
        p.stack.len() > 0,
        later.len() == prior.len() + 1,
        later.subrange(0, prior.len() - 1) == prior.drop_last(),
        later[prior.len() - 1].package == prior.last().package,
        later[prior.len() - 1].cursor == prior.last().cursor + 1,
        later[prior.len() - 1].induced == prior.last().induced,
        later.last().package == next_dep(g, p),
        later.last().cursor == 0,
        later.last().induced.wf(),
        later.last().induced@ == Map::<Seq<char>, Source>::empty(),
    ensures
        frames_match(g, rules, workdir, later, descend(g, p).stack),
{
    let stack = descend(g, p).stack;
    let top = prior.len() - 1;
    assert forall|i: int| 0 <= i < later.len() implies {
        &&& (#[trigger] later[i]).package == stack[i].package
        &&& later[i].cursor == stack[i].cursor
        &&& later[i].induced.wf()
        &&& later[i].induced@ == induced(g, rules, workdir, stack[i].package, settled(stack, i))
    } by {
        if i < top {
            assert(later[i] == later.subrange(0, top)[i]);
            assert(prior[i] == prior.drop_last()[i]);
            assert(stack[i] == p.stack[i]);
            assert(settled(stack, i) == settled(p.stack, i));
        } else if i == top {
            assert(stack[i] == stepped(p.stack)[i]);
            assert(settled(p.stack, top) == p.stack[top].cursor);
        }
    }
}

/// The frames still match after the top visit ended, where the visit
/// below it has recorded the copy if one was made.
proof fn lemma_frames_retire(
    g: &Graph,
    rules: Map<Seq<char>, Seq<char>>,
    workdir: Seq<char>,
    root: int,
    prior: Seq<Frame>,
    later: Seq<Frame>,
    p: Progress,
)
    requires
        walk_ok(g, rules, root, p),
        frames_match(g, rules, workdir, prior, p.stack),
        p.stack.len() > 0,
        later.len() == prior.len() - 1,
        later.len() > 0 ==> {
            &&& later.drop_last() == prior.subrange(0, prior.len() - 2)
            &&& later.last().package == prior[prior.len() - 2].package
            &&& later.last().cursor == prior[prior.len() - 2].cursor
            &&& later.last().induced.wf()
            &&& later.last().induced@ == if needs_patch(g, rules, p.stack.last().package) {
                prior[prior.len() - 2].induced@.insert(
                    g.name(p.stack.last().package),
                    Source::Local(child_path(workdir, g.name(p.stack.last().package))),
                )
            } else {
                prior[prior.len() - 2].induced@
            }
        },
    ensures
        frames_match(g, rules, workdir, later, retire(p, patches(g, rules, p)).stack),
{
    let stack = retire(p, patches(g, rules, p)).stack;
    let top = prior.len() - 1;
    let v = p.stack[top].package;
    assert forall|i: int| 0 <= i < later.len() implies {
        &&& (#[trigger] later[i]).package == stack[i].package
        &&& later[i].cursor == stack[i].cursor
        &&& later[i].induced.wf()
        &&& later[i].induced@ == induced(g, rules, workdir, stack[i].package, settled(stack, i))
    } by {
        assert(stack[i] == p.stack[i]);
        if i < top - 1 {
            assert(later[i] == later.drop_last()[i]);
            assert(prior[i] == prior.subrange(0, top - 1)[i]);
            assert(settled(stack, i) == settled(p.stack, i));
        } else {
            assert(linked(g, p.stack, i));
            assert(settled(p.stack, i) == p.stack[i].cursor - 1);
            assert(settled(stack, i) == p.stack[i].cursor);
            assert(g.dep(p.stack[i].package, p.stack[i].cursor - 1) == v);
            assert(!targeted(g, rules, p.stack[top].package));
            assert(prior[i].induced@ == induced(
                g,
                rules,
                workdir,
                p.stack[i].package,
                p.stack[i].cursor - 1,
            ));
        }
    }
}

/// Plans the substitution of packages across the dependency graph: walks
/// the graph depth-first from `root`, without descending into a package
/// that a rule names, and decides for each package that it visits whether
/// some dependency of it is substituted. Each such package other than the
/// root is to be copied once into its directory under `workdir`, after
/// those of its dependencies that are copied too, with the dependencies on
/// substituted packages redirected in the manifest of the copy; the root's
/// own manifest is rewritten in place, last. A dependency on a package
/// whose visit is in progress stops the walk.
pub fn run(graph: &Graph, root: usize, rules: &RuleSet, workdir: &str) -> (plan: Plan)
    requires
        graph.wf(),
        root < graph.size(),
        rules.wf(),
    ensures
        plan.fulfils(graph, rules@, workdir@, root as int),
{
    let n = graph.packages.len();
    let mut patched = cleared(n);
    let mut actions: Vec<Action> = Vec::new();
    let mut stack: Vec<Frame> = Vec::new();
    let mut finale = Substitutions::new();
    stack.push(Frame { package: root, cursor: 0, induced: Substitutions::new() });
    let ghost mut p = start(root as int);
    let ghost mut steps: nat = 0;
    let ghost bound: nat;
    proof {
        bound = lemma_degree_bound(graph, n as int);
        lemma_start(graph, rules@, root as int);
    }
    while stack.len() > 0
        invariant
            graph.wf(),
            root < graph.size(),
            rules.wf(),
            n == graph.size(),
            degree_bound(graph, bound),
            walk_ok(graph, rules@, root as int, p),
            p == after(graph, rules@, root as int, steps),
            frames_match(graph, rules@, workdir@, stack@, p.stack),
            copies_match(graph, rules@, workdir@, actions@, p.copies),
            flags_match(graph, patched@, p.copies),
            stack@.len() == 0 ==> finale.wf() && finale@ == induced_all(
                graph,
                rules@,
                workdir@,
                root as int,
            ),
        decreases budget(graph, p.stack, bound),
    {
        let ghost before = stack@;
        let mut frame = stack.pop().unwrap();
        let package = frame.package;
        assert(before.last() == frame);
        assert(frame.package == p.stack.last().package && frame.cursor == p.stack.last().cursor);
        assert(stack@ == before.drop_last());
        if frame.cursor < graph.deps[package].len() {
            let child = graph.deps[package][frame.cursor];
            assert(child as int == graph.dep(package as int, frame.cursor as int));
            assert(child as int == next_dep(graph, p));
            let name = graph.packages[child].name.as_str();
            frame.cursor = frame.cursor + 1;
            match rules.get(name) {
                Some(url) => {
                    frame.induced.insert(String::from_str(name), Replacement::Remote(url.clone()));
                    stack.push(frame);
                    proof {
                        lemma_advance(graph, rules@, root as int, p, bound);
                        assert(stack@.drop_last() =~= before.drop_last());
                        lemma_frames_advance(graph, rules@, workdir@, before, stack@, p);
                        p = advance(p);
                        steps = steps + 1;
                    }
                },
                None => {
                    if patched[child] {
                        proof {
                            assert(p.copies.contains(child as int));
                            let a = choose|a: int|
                                0 <= a < p.copies.len() && p.copies[a] == child as int;
                            assert(p.done.contains(p.copies[a]));
                        }
                        frame.induced.insert(
                            String::from_str(name),
                            Replacement::Local(join_path(workdir, name)),
                        );
                        stack.push(frame);
                        proof {
                            lemma_advance(graph, rules@, root as int, p, bound);
                            assert(stack@.drop_last() =~= before.drop_last());
                            lemma_frames_advance(graph, rules@, workdir@, before, stack@, p);
                            p = advance(p);
                            steps = steps + 1;
                        }
                    } else {
                        stack.push(frame);
                        match on_stack(&stack, child) {
                            Some(at) => {
                                proof {
                                    assert(stack@[at as int].package == p.stack[at as int].package)
                                        by {
                                        if at < before.len() - 1 {
                                            assert(stack@[at as int] == before.drop_last()[at as int]);
                                        }
                                    }
                                }
                                let plan = Plan { actions, cycle: Some(child) };
                                proof {
                                    lemma_plan_stopped(
                                        graph,
                                        rules@,
                                        workdir@,
                                        root as int,
                                        plan,
                                        p,
                                        steps,
                                        at as int,
                                    );
                                }
                                return plan;
                            },
                            None => {
                                proof {
                                    assert forall|i: int| 0 <= i < p.stack.len() implies (
                                    #[trigger] p.stack[i]).package != child as int by {
                                        assert(stack@[i].package == p.stack[i].package) by {
                                            if i < before.len() - 1 {
                                                assert(stack@[i] == before.drop_last()[i]);
                                            }
                                        }
                                    }
                                }
                                stack.push(
                                    Frame {
                                        package: child,
                                        cursor: 0,
                                        induced: Substitutions::new(),
                                    },
                                );
                                proof {
                                    lemma_descend(graph, rules@, root as int, p, bound);
                                    assert(stack@.subrange(0, before.len() - 1)
                                        =~= before.drop_last());
                                    lemma_frames_descend(
                                        graph,
                                        rules@,
                                        workdir@,
                                        before,
                                        stack@,
                                        p,
                                    );
                                    p = descend(graph, p);
                                    steps = steps + 1;
                                }
                            },
                        }
                    }
                },
            }
        } else {
            proof {
                lemma_retire(graph, rules@, root as int, p, bound);
                lemma_needs_patch_unfold(graph, rules@, package as int);
                lemma_induced_empty(
                    graph,
                    rules@,
                    workdir@,
                    package as int,
                    graph.degree(package as int) as int,
                );
                assert(settled(p.stack, p.stack.len() - 1) == p.stack.last().cursor);
            }
            if stack.len() == 0 {
                finale = frame.induced;
                proof {
                    lemma_frames_retire(graph, rules@, workdir@, root as int, before, stack@, p);
                }
            } else if frame.induced.is_empty() {
                proof {
                    assert(stack@.drop_last() =~= before.subrange(0, before.len() - 2));
                    assert(stack@.last() == before[before.len() - 2]);
                    lemma_frames_retire(graph, rules@, workdir@, root as int, before, stack@, p);
                }
            } else {
                let name = graph.packages[package].name.as_str();
                let directory = join_path(workdir, name);
                let mut parent = stack.pop().unwrap();
                parent.induced.insert(
                    String::from_str(name),
                    Replacement::Local(directory.clone()),
                );
                stack.push(parent);
                let ghost earlier = actions@;
                let ghost flags = patched@;
                actions.push(Action::Materialize { package, directory, substitutions: frame.induced });
                patched.set(package, true);
                proof {
                    assert(stack@.drop_last() =~= before.subrange(0, before.len() - 2));
                    lemma_frames_retire(graph, rules@, workdir@, root as int, before, stack@, p);
                    let q = retire(p, true);
                    assert forall|a: int| 0 <= a < actions@.len() implies match #[trigger] actions@[a] {
                        Action::Materialize { package, directory, substitutions } => {
                            &&& package == q.copies[a]
                            &&& directory@ == child_path(workdir@, graph.name(q.copies[a]))
                            &&& substitutions.wf()
                            &&& substitutions@ == induced_all(graph, rules@, workdir@, q.copies[a])
                        },
                        Action::RewriteRoot { .. } => false,
                    } by {
                        if a < earlier.len() {
                            assert(actions@[a] == earlier[a]);
                        }
                    }
                    assert forall|v: int| 0 <= v < patched@.len() implies #[trigger] patched@[v]
                        == q.copies.contains(v) by {
                        lemma_push_contains(p.copies, package as int, v);
                        assert(flags[v] == p.copies.contains(v));
                    }
                }
            }
            proof {
                p = retire(p, patches(graph, rules@, p));
                steps = steps + 1;
            }
        }
    }
    proof {
        lemma_needs_patch_unfold(graph, rules@, root as int);
        lemma_induced_empty(
            graph,
            rules@,
            workdir@,
            root as int,
            graph.degree(root as int) as int,
        );
    }
    let ghost copies = actions@;
    if !finale.is_empty() {
        actions.push(Action::RewriteRoot { substitutions: finale });
        assert(actions@.drop_last() =~= copies);
    }
    let plan = Plan { actions, cycle: None };
    proof {
        lemma_plan_complete(graph, rules@, workdir@, root as int, copies, plan, p, steps);
    }
    plan
}

} // verus!
