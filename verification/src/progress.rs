use vstd::prelude::*;
use vstd::set_lib::*;
use crate::graph::Graph;
use crate::reach::{
    cyclic, descends, lemma_closed_set, loops, needs_patch, targeted, visited,
};

verus! {

/// One visit in progress: a package and the number of its direct
/// dependencies that have been taken up.
pub ghost struct Visit {
    pub package: int,
    pub cursor: int,
}

/// The state of the walk, without the data that it carries along.
pub ghost struct Progress {
    /// The visits in progress, the root's first.
    pub stack: Seq<Visit>,
    /// The packages that have been materialized, in order.
    pub copies: Seq<int>,
    /// The packages of which a visit has ended.
    pub done: Set<int>,
    /// When the first visit of a package ended.
    pub rank: Map<int, nat>,
    /// The number of visits that have ended.
    pub clock: nat,
}

/// The number of direct dependencies of the `i`-th visit that are dealt
/// with: below the top of the stack, the last one taken up is the package
/// of the visit above.
pub open spec fn settled(stack: Seq<Visit>, i: int) -> int {
    if i == stack.len() - 1 {
        stack[i].cursor
    } else {
        stack[i].cursor - 1
    }
}

/// The `i`-th visit of the stack has last taken up the package of the visit
/// above it.
pub open spec fn linked(g: &Graph, stack: Seq<Visit>, i: int) -> bool {
    &&& stack[i].cursor >= 1
    &&& g.dep(stack[i].package, stack[i].cursor - 1) == stack[i + 1].package
}

/// The stack is a path of the graph that starts at the root, along which the
/// walk descends, and on which no package stands twice.
pub open spec fn stack_ok(
    g: &Graph,
    rules: Map<Seq<char>, Seq<char>>,
    root: int,
    stack: Seq<Visit>,
) -> bool {
    &&& stack.len() > 0 ==> stack[0].package == root
    &&& forall|i: int|
        0 <= i < stack.len() ==> {
            &&& 0 <= (#[trigger] stack[i]).package < g.size()
            &&& 0 <= stack[i].cursor <= g.degree(stack[i].package)
            &&& i >= 1 ==> !targeted(g, rules, stack[i].package)
        }
    &&& forall|i: int| 0 <= i < stack.len() - 1 ==> #[trigger] linked(g, stack, i)
    &&& forall|i: int, j: int|
        0 <= i < j < stack.len() ==> (#[trigger] stack[i]).package != (#[trigger] stack[j]).package
}

/// Every dependency that a visit in progress has dealt with is named by a
/// rule or has been visited to the end.
pub open spec fn settled_ok(
    g: &Graph,
    rules: Map<Seq<char>, Seq<char>>,
    stack: Seq<Visit>,
    done: Set<int>,
) -> bool {
    forall|i: int, j: int|
        0 <= i < stack.len() && 0 <= j < settled(stack, i) ==> targeted(
            g,
            rules,
            #[trigger] g.dep(stack[i].package, j),
        ) || done.contains(g.dep(stack[i].package, j))
}

/// What holds of the packages whose visit has ended.
pub open spec fn done_ok(
    g: &Graph,
    rules: Map<Seq<char>, Seq<char>>,
    root: int,
    p: Progress,
) -> bool {
    &&& forall|v: int| #[trigger]
        p.done.contains(v) ==> {
            &&& 0 <= v < g.size()
            &&& p.rank[v] < p.clock
            &&& visited(g, rules, root, v)
            &&& v != root ==> (p.copies.contains(v) <==> needs_patch(g, rules, v))
        }
    &&& forall|v: int, j: int|
        p.done.contains(v) && 0 <= v < g.size() && 0 <= j < g.degree(v) && !targeted(
            g,
            rules,
            #[trigger] g.dep(v, j),
        ) ==> p.done.contains(g.dep(v, j)) && p.rank[g.dep(v, j)] < p.rank[v]
    &&& p.stack.len() == 0 <==> p.done.contains(root)
}

/// What holds of the packages that have been materialized.
pub open spec fn copies_ok(
    g: &Graph,
    rules: Map<Seq<char>, Seq<char>>,
    root: int,
    p: Progress,
) -> bool {
    &&& p.copies.no_duplicates()
    &&& forall|a: int|
        0 <= a < p.copies.len() ==> {
            &&& p.done.contains(#[trigger] p.copies[a])
            &&& p.copies[a] != root
        }
    &&& forall|a: int, j: int|
        0 <= a < p.copies.len() && 0 <= j < g.degree(p.copies[a]) && !targeted(
            g,
            rules,
            #[trigger] g.dep(p.copies[a], j),
        ) && needs_patch(g, rules, g.dep(p.copies[a], j)) ==> exists|b: int|
            0 <= b < a && p.copies[b] == g.dep(p.copies[a], j)
    &&& forall|i: int|
        0 <= i < p.stack.len() ==> !p.copies.contains((#[trigger] p.stack[i]).package)
}

/// The invariant of the walk.
pub open spec fn walk_ok(
    g: &Graph,
    rules: Map<Seq<char>, Seq<char>>,
    root: int,
    p: Progress,
) -> bool {
    &&& g.wf()
    &&& 0 <= root < g.size()
    &&& stack_ok(g, rules, root, p.stack)
    &&& settled_ok(g, rules, p.stack, p.done)
    &&& done_ok(g, rules, root, p)
    &&& copies_ok(g, rules, root, p)
}

/// The state in which the walk starts.
pub open spec fn start(root: int) -> Progress {
    Progress {
        stack: seq![Visit { package: root, cursor: 0 }],
        copies: Seq::empty(),
        done: Set::empty(),
        rank: Map::empty(),
        clock: 0,
    }
}

/// The dependency that the visit on top of the stack takes up next.
pub open spec fn next_dep(g: &Graph, p: Progress) -> int {
    g.dep(p.stack.last().package, p.stack.last().cursor)
}

/// The stack after the top visit took up its next dependency.
pub open spec fn stepped(stack: Seq<Visit>) -> Seq<Visit> {
    stack.update(
        stack.len() - 1,
        Visit { package: stack.last().package, cursor: stack.last().cursor + 1 },
    )
}

/// The state after the top visit took up a dependency without descending.
pub open spec fn advance(p: Progress) -> Progress {
    Progress { stack: stepped(p.stack), ..p }
}

/// The state after the top visit took up a dependency and the walk
/// descended into it.
pub open spec fn descend(g: &Graph, p: Progress) -> Progress {
    Progress { stack: stepped(p.stack).push(Visit { package: next_dep(g, p), cursor: 0 }), ..p }
}

/// The state after the top visit ended; `patch` says whether its package
/// was materialized.
pub open spec fn retire(p: Progress, patch: bool) -> Progress {
    let v = p.stack.last().package;
    Progress {
        stack: p.stack.drop_last(),
        copies: if patch {
            p.copies.push(v)
        } else {
            p.copies
        },
        done: p.done.insert(v),
        rank: if p.done.contains(v) {
            p.rank
        } else {
            p.rank.insert(v, p.clock)
        },
        clock: p.clock + 1,
    }
}

/// A visit of package `d` is in progress.
pub open spec fn in_progress(p: Progress, d: int) -> bool {
    exists|i: int| 0 <= i < p.stack.len() && (#[trigger] p.stack[i]).package == d
}

/// The walk is stopped by a cycle: the dependency that the top visit takes
/// up next is one into which the walk would descend, and a visit of it is
/// in progress.
pub open spec fn blocked(g: &Graph, rules: Map<Seq<char>, Seq<char>>, p: Progress) -> bool {
    &&& p.stack.len() > 0
    &&& p.stack.last().cursor < g.degree(p.stack.last().package)
    &&& !targeted(g, rules, next_dep(g, p))
    &&& !p.copies.contains(next_dep(g, p))
    &&& in_progress(p, next_dep(g, p))
}

/// Whether the package of the top visit is materialized when the visit
/// ends: it is not the root, and it needs a patch.
pub open spec fn patches(g: &Graph, rules: Map<Seq<char>, Seq<char>>, p: Progress) -> bool {
    p.stack.len() > 1 && needs_patch(g, rules, p.stack.last().package)
}

/// One step of the walk. The top visit takes up its next dependency: one
/// that a rule names or that has been materialized is passed over, and
/// into any other the walk descends. A visit that has no dependency left
/// ends. A walk that has ended or is stopped by a cycle stays as it is.
pub open spec fn next(g: &Graph, rules: Map<Seq<char>, Seq<char>>, p: Progress) -> Progress {
    if p.stack.len() == 0 || blocked(g, rules, p) {
        p
    } else if p.stack.last().cursor < g.degree(p.stack.last().package) {
        if targeted(g, rules, next_dep(g, p)) || p.copies.contains(next_dep(g, p)) {
            advance(p)
        } else {
            descend(g, p)
        }
    } else {
        retire(p, patches(g, rules, p))
    }
}

/// The state of the walk from `root` after `n` steps.
pub open spec fn after(g: &Graph, rules: Map<Seq<char>, Seq<char>>, root: int, n: nat) -> Progress
    decreases n,
{
    if n == 0 {
        start(root)
    } else {
        next(g, rules, after(g, rules, root, (n - 1) as nat))
    }
}

/// The steps that a visit with `r` dependencies left can still cause, where
/// `h` more visits fit on the stack above it and no package has more than
/// `d` dependencies.
pub open spec fn cost(r: nat, h: nat, d: nat) -> nat
    decreases h, r,
{
    if r == 0 {
        1
    } else {
        1 + (if h == 0 {
            0
        } else {
            cost(d, (h - 1) as nat, d)
        }) + cost((r - 1) as nat, h, d)
    }
}

/// A bound on the steps that the walk can still take.
pub open spec fn budget(g: &Graph, stack: Seq<Visit>, d: nat) -> nat
    decreases stack.len(),
{
    if stack.len() == 0 {
        0
    } else {
        budget(g, stack.drop_last(), d) + cost(
            (g.degree(stack.last().package) - stack.last().cursor) as nat,
            (g.size() - stack.len()) as nat,
            d,
        )
    }
}

/// No package has more than `d` direct dependencies.
pub open spec fn degree_bound(g: &Graph, d: nat) -> bool {
    forall|v: int| 0 <= v < g.size() ==> #[trigger] g.degree(v) <= d
}

/// Some number bounds the dependencies of each of the first `k` packages.
pub proof fn lemma_degree_bound(g: &Graph, k: int) -> (d: nat)
    requires
        0 <= k <= g.size(),
    ensures
        forall|v: int| 0 <= v < k ==> #[trigger] g.degree(v) <= d,
    decreases k,
{
    if k == 0 {
        0
    } else {
        let before = lemma_degree_bound(g, k - 1);
        if g.degree(k - 1) > before {
            g.degree(k - 1)
        } else {
            before
        }
    }
}

proof fn lemma_cost_monotone(r1: nat, r2: nat, h: nat, d: nat)
    requires
        r1 <= r2,
    ensures
        cost(r1, h, d) <= cost(r2, h, d),
    decreases r2,
{
    if r1 < r2 {
        lemma_cost_monotone(r1, (r2 - 1) as nat, h, d);
    }
}

/// Distinct numbers below `n` are at most `n`.
proof fn lemma_distinct_bounded(s: Seq<int>, n: nat)
    requires
        s.no_duplicates(),
        forall|i: int| 0 <= i < s.len() ==> 0 <= #[trigger] s[i] < n,
    ensures
        s.len() <= n,
{
    s.unique_seq_to_set();
    lemma_int_range(0, n as int);
    assert(s.to_set().subset_of(set_int_range(0, n as int))) by {
        assert forall|x: int| s.to_set().contains(x) implies set_int_range(0, n as int).contains(
            x,
        ) by {
            let i = choose|i: int| 0 <= i < s.len() && s[i] == x;
            assert(0 <= s[i] < n);
        }
    }
    lemma_len_subset(s.to_set(), set_int_range(0, n as int));
}

/// The packages on the stack, from the root's visit up.
pub open spec fn packages_of(stack: Seq<Visit>) -> Seq<int> {
    stack.map_values(|v: Visit| v.package)
}

/// The stack is a path along which the walk descends.
proof fn lemma_stack_path(g: &Graph, rules: Map<Seq<char>, Seq<char>>, root: int, stack: Seq<Visit>)
    requires
        g.wf(),
        stack_ok(g, rules, root, stack),
        stack.len() > 0,
    ensures
        descends(g, rules, packages_of(stack)),
{
    let path = packages_of(stack);
    assert forall|i: int| 0 <= i < path.len() implies 0 <= #[trigger] path[i] < g.size() by {
        assert(path[i] == stack[i].package);
    }
    assert forall|i: int| 0 <= i < path.len() - 1 implies g.edge(#[trigger] path[i], path[i + 1]) by {
        assert(path[i] == stack[i].package);
        assert(path[i + 1] == stack[i + 1].package);
        assert(linked(g, stack, i));
        assert(g.dep(stack[i].package, stack[i].cursor - 1) == path[i + 1]);
    }
    assert forall|i: int| 1 <= i < path.len() implies !targeted(g, rules, #[trigger] path[i]) by {
        assert(path[i] == stack[i].package);
    }
}

/// A lower part of the stack is a stack of the same kind.
proof fn lemma_stack_prefix(
    g: &Graph,
    rules: Map<Seq<char>, Seq<char>>,
    root: int,
    stack: Seq<Visit>,
    n: int,
)
    requires
        stack_ok(g, rules, root, stack),
        0 <= n <= stack.len(),
    ensures
        stack_ok(g, rules, root, stack.subrange(0, n)),
{
    let part = stack.subrange(0, n);
    assert forall|k: int| 0 <= k < part.len() implies {
        &&& 0 <= (#[trigger] part[k]).package < g.size()
        &&& 0 <= part[k].cursor <= g.degree(part[k].package)
        &&& k >= 1 ==> !targeted(g, rules, part[k].package)
    } by {
        assert(part[k] == stack[k]);
    }
    assert forall|a: int| 0 <= a < part.len() - 1 implies #[trigger] linked(g, part, a) by {
        assert(part[a] == stack[a]);
        assert(part[a + 1] == stack[a + 1]);
        assert(linked(g, stack, a));
    }
    assert forall|a: int, b: int| 0 <= a < b < part.len() implies (#[trigger] part[a]).package
        != (#[trigger] part[b]).package by {
        assert(part[a] == stack[a]);
        assert(part[b] == stack[b]);
    }
    if n > 0 {
        assert(part[0] == stack[0]);
    }
}

/// Every package on the stack is visited.
proof fn lemma_stack_visited(
    g: &Graph,
    rules: Map<Seq<char>, Seq<char>>,
    root: int,
    stack: Seq<Visit>,
    i: int,
)
    requires
        g.wf(),
        stack_ok(g, rules, root, stack),
        0 <= i < stack.len(),
    ensures
        visited(g, rules, root, stack[i].package),
{
    let part = stack.subrange(0, i + 1);
    lemma_stack_prefix(g, rules, root, stack, i + 1);
    lemma_stack_path(g, rules, root, part);
    let path = packages_of(part);
    assert(part[0] == stack[0]);
    assert(path[0] == root);
    assert(part[i] == stack[i]);
    assert(path.last() == stack[i].package);
}

/// The stack keeps its shape when its top visit takes up a dependency.
proof fn lemma_stepped_stack(
    g: &Graph,
    rules: Map<Seq<char>, Seq<char>>,
    root: int,
    stack: Seq<Visit>,
)
    requires
        stack_ok(g, rules, root, stack),
        stack.len() > 0,
        stack.last().cursor < g.degree(stack.last().package),
    ensures
        stack_ok(g, rules, root, stepped(stack)),
{
    let next = stepped(stack);
    let top = stack.len() - 1;
    assert forall|i: int| 0 <= i < next.len() implies {
        &&& 0 <= (#[trigger] next[i]).package < g.size()
        &&& 0 <= next[i].cursor <= g.degree(next[i].package)
        &&& i >= 1 ==> !targeted(g, rules, next[i].package)
    } by {
        assert(next[i].package == stack[i].package);
        if i < top {
            assert(next[i] == stack[i]);
        }
    }
    assert forall|a: int| 0 <= a < next.len() - 1 implies #[trigger] linked(g, next, a) by {
        assert(next[a] == stack[a]);
        assert(next[a + 1].package == stack[a + 1].package);
        assert(linked(g, stack, a));
    }
    assert forall|a: int, b: int| 0 <= a < b < next.len() implies (#[trigger] next[a]).package
        != (#[trigger] next[b]).package by {
        assert(next[a].package == stack[a].package);
        assert(next[b].package == stack[b].package);
    }
    assert(next[0].package == stack[0].package);
}

/// The walk starts in a state that meets its invariant.
pub proof fn lemma_start(g: &Graph, rules: Map<Seq<char>, Seq<char>>, root: int)
    requires
        g.wf(),
        0 <= root < g.size(),
    ensures
        walk_ok(g, rules, root, start(root)),
{
    let p = start(root);
    assert(p.stack[0].package == root);
}

/// Taking up a dependency that is named by a rule or whose visit has ended
/// keeps the invariant and uses up budget.
pub proof fn lemma_advance(
    g: &Graph,
    rules: Map<Seq<char>, Seq<char>>,
    root: int,
    p: Progress,
    d: nat,
)
    requires
        walk_ok(g, rules, root, p),
        p.stack.len() > 0,
        p.stack.last().cursor < g.degree(p.stack.last().package),
        targeted(g, rules, next_dep(g, p)) || p.done.contains(next_dep(g, p)),
    ensures
        walk_ok(g, rules, root, advance(p)),
        budget(g, advance(p).stack, d) < budget(g, p.stack, d),
{
    let q = advance(p);
    let top = p.stack.len() - 1;
    assert(q.stack.drop_last() =~= p.stack.drop_last());
    lemma_stepped_stack(g, rules, root, p.stack);
    assert(settled_ok(g, rules, q.stack, q.done)) by {
        assert forall|i: int, j: int|
            0 <= i < q.stack.len() && 0 <= j < settled(q.stack, i) implies targeted(
            g,
            rules,
            #[trigger] g.dep(q.stack[i].package, j),
        ) || q.done.contains(g.dep(q.stack[i].package, j)) by {
            assert(q.stack[i].package == p.stack[i].package);
            if i < top {
                assert(q.stack[i] == p.stack[i]);
                assert(settled(p.stack, i) == settled(q.stack, i));
            } else if j < p.stack[top].cursor {
                assert(j < settled(p.stack, i));
            }
        }
    }
    assert(copies_ok(g, rules, root, q)) by {
        assert forall|i: int| 0 <= i < q.stack.len() implies !q.copies.contains(
            (#[trigger] q.stack[i]).package,
        ) by {
            assert(q.stack[i].package == p.stack[i].package);
        }
    }
}

/// Descending into a dependency that no rule names, that has not been
/// materialized and that is not on the stack keeps the invariant and uses
/// up budget.
pub proof fn lemma_descend(
    g: &Graph,
    rules: Map<Seq<char>, Seq<char>>,
    root: int,
    p: Progress,
    d: nat,
)
    requires
        walk_ok(g, rules, root, p),
        degree_bound(g, d),
        p.stack.len() > 0,
        p.stack.last().cursor < g.degree(p.stack.last().package),
        !targeted(g, rules, next_dep(g, p)),
        !p.copies.contains(next_dep(g, p)),
        forall|i: int| 0 <= i < p.stack.len() ==> (#[trigger] p.stack[i]).package != next_dep(g, p),
    ensures
        walk_ok(g, rules, root, descend(g, p)),
        budget(g, descend(g, p).stack, d) < budget(g, p.stack, d),
        p.stack.len() < g.size(),
{
    let q = descend(g, p);
    let top = p.stack.len() - 1;
    let child = next_dep(g, p);
    let mid = stepped(p.stack);
    assert(0 <= child < g.size());
    assert(q.stack.drop_last() =~= mid);
    assert(mid.drop_last() =~= p.stack.drop_last());
    lemma_stepped_stack(g, rules, root, p.stack);
    assert(stack_ok(g, rules, root, q.stack)) by {
        assert forall|i: int| 0 <= i < q.stack.len() implies {
            &&& 0 <= (#[trigger] q.stack[i]).package < g.size()
            &&& 0 <= q.stack[i].cursor <= g.degree(q.stack[i].package)
            &&& i >= 1 ==> !targeted(g, rules, q.stack[i].package)
        } by {
            if i <= top {
                assert(q.stack[i] == mid[i]);
            }
        }
        assert forall|a: int| 0 <= a < q.stack.len() - 1 implies #[trigger] linked(
            g,
            q.stack,
            a,
        ) by {
            assert(q.stack[a] == mid[a]);
            if a < top {
                assert(q.stack[a + 1] == mid[a + 1]);
                assert(linked(g, mid, a));
            }
        }
        assert forall|a: int, b: int| 0 <= a < b < q.stack.len() implies (
        #[trigger] q.stack[a]).package != (#[trigger] q.stack[b]).package by {
            assert(q.stack[a].package == p.stack[a].package);
            if b <= top {
                assert(q.stack[b].package == p.stack[b].package);
            }
        }
        assert(q.stack[0].package == p.stack[0].package);
    }
    assert(settled_ok(g, rules, q.stack, q.done)) by {
        assert forall|i: int, j: int|
            0 <= i < q.stack.len() && 0 <= j < settled(q.stack, i) implies targeted(
            g,
            rules,
            #[trigger] g.dep(q.stack[i].package, j),
        ) || q.done.contains(g.dep(q.stack[i].package, j)) by {
            if i < top {
                assert(q.stack[i] == p.stack[i]);
                assert(settled(p.stack, i) == settled(q.stack, i));
            } else if i == top {
                assert(q.stack[i].package == p.stack[i].package);
                assert(j < settled(p.stack, i));
            }
        }
    }
    assert(copies_ok(g, rules, root, q)) by {
        assert forall|i: int| 0 <= i < q.stack.len() implies !q.copies.contains(
            (#[trigger] q.stack[i]).package,
        ) by {
            if i <= top {
                assert(q.stack[i].package == p.stack[i].package);
            }
        }
    }
    let path = packages_of(q.stack);
    assert(path.no_duplicates()) by {
        assert forall|i: int, j: int|
            0 <= i < path.len() && 0 <= j < path.len() && i != j implies path[i] != path[j] by {
            assert(path[i] == q.stack[i].package);
            assert(path[j] == q.stack[j].package);
        }
    }
    assert forall|i: int| 0 <= i < path.len() implies 0 <= #[trigger] path[i] < g.size() by {
        assert(path[i] == q.stack[i].package);
    }
    lemma_distinct_bounded(path, g.size());
    let h = (g.size() - p.stack.len()) as nat;
    let r = (g.degree(p.stack[top].package) - p.stack[top].cursor) as nat;
    assert(h >= 1);
    assert(cost(r, h, d) == 1 + cost(d, (h - 1) as nat, d) + cost((r - 1) as nat, h, d));
    lemma_cost_monotone(g.degree(child), d, (h - 1) as nat, d);
    assert(budget(g, q.stack, d) == budget(g, mid, d) + cost(g.degree(child), (h - 1) as nat, d));
    assert(budget(g, mid, d) == budget(g, p.stack.drop_last(), d) + cost((r - 1) as nat, h, d));
}

/// What a sequence holds after one more item.
pub proof fn lemma_push_contains(s: Seq<int>, v: int, x: int)
    ensures
        s.push(v).contains(x) <==> s.contains(x) || x == v,
{
    let t = s.push(v);
    if s.contains(x) {
        let a = choose|a: int| 0 <= a < s.len() && s[a] == x;
        assert(t[a] == x);
    }
    if x == v {
        assert(t[s.len() as int] == x);
    }
    if t.contains(x) {
        let a = choose|a: int| 0 <= a < t.len() && t[a] == x;
        if a < s.len() {
            assert(s[a] == x);
        }
    }
}

proof fn lemma_retire_stack(g: &Graph, rules: Map<Seq<char>, Seq<char>>, root: int, p: Progress)
    requires
        walk_ok(g, rules, root, p),
        p.stack.len() > 0,
        p.stack.last().cursor == g.degree(p.stack.last().package),
    ensures
        stack_ok(g, rules, root, retire(p, patches(g, rules, p)).stack),
        settled_ok(
            g,
            rules,
            retire(p, patches(g, rules, p)).stack,
            retire(p, patches(g, rules, p)).done,
        ),
{
    let top = p.stack.len() - 1;
    let q = retire(p, patches(g, rules, p));
    assert(q.stack =~= p.stack.subrange(0, top));
    lemma_stack_prefix(g, rules, root, p.stack, top);
    assert forall|i: int, j: int|
        0 <= i < q.stack.len() && 0 <= j < settled(q.stack, i) implies targeted(
        g,
        rules,
        #[trigger] g.dep(q.stack[i].package, j),
    ) || q.done.contains(g.dep(q.stack[i].package, j)) by {
        assert(q.stack[i] == p.stack[i]);
        if j < settled(p.stack, i) {
            assert(targeted(g, rules, g.dep(p.stack[i].package, j)) || p.done.contains(
                g.dep(p.stack[i].package, j),
            ));
        } else {
            assert(i == top - 1);
            assert(linked(g, p.stack, i));
        }
    }
}

proof fn lemma_retire_done(g: &Graph, rules: Map<Seq<char>, Seq<char>>, root: int, p: Progress)
    requires
        walk_ok(g, rules, root, p),
        p.stack.len() > 0,
        p.stack.last().cursor == g.degree(p.stack.last().package),
    ensures
        done_ok(g, rules, root, retire(p, patches(g, rules, p))),
{
    let top = p.stack.len() - 1;
    let v = p.stack[top].package;
    let patch = patches(g, rules, p);
    let q = retire(p, patch);
    lemma_stack_visited(g, rules, root, p.stack, top);
    assert(p.stack[0].package == root);
    if top > 0 {
        assert(p.stack[0].package != p.stack[top].package);
    }
    assert(!p.copies.contains(p.stack[top].package));
    assert forall|w: int, j: int|
        q.done.contains(w) && 0 <= w < g.size() && 0 <= j < g.degree(w) && !targeted(
            g,
            rules,
            #[trigger] g.dep(w, j),
        ) implies q.done.contains(g.dep(w, j)) && q.rank[g.dep(w, j)] < q.rank[w] by {
        let c = g.dep(w, j);
        if p.done.contains(w) {
            assert(p.done.contains(c) && p.rank[c] < p.rank[w]);
        } else {
            assert(w == v);
            assert(j < settled(p.stack, top));
            assert(p.done.contains(g.dep(p.stack[top].package, j)));
        }
    }
    assert forall|w: int| #[trigger] q.done.contains(w) implies {
        &&& 0 <= w < g.size()
        &&& q.rank[w] < q.clock
        &&& visited(g, rules, root, w)
        &&& w != root ==> (q.copies.contains(w) <==> needs_patch(g, rules, w))
    } by {
        if patch {
            lemma_push_contains(p.copies, v, w);
        }
        if w != v {
            assert(p.done.contains(w));
        }
    }
    if q.stack.len() > 0 {
        assert(v != root);
    }
}

proof fn lemma_retire_copies(g: &Graph, rules: Map<Seq<char>, Seq<char>>, root: int, p: Progress)
    requires
        walk_ok(g, rules, root, p),
        p.stack.len() > 0,
        p.stack.last().cursor == g.degree(p.stack.last().package),
    ensures
        copies_ok(g, rules, root, retire(p, patches(g, rules, p))),
{
    let top = p.stack.len() - 1;
    let v = p.stack[top].package;
    let patch = patches(g, rules, p);
    let q = retire(p, patch);
    assert(p.stack[0].package == root);
    assert(!p.copies.contains(p.stack[top].package));
    assert forall|i: int| 0 <= i < q.stack.len() implies !q.copies.contains(
        (#[trigger] q.stack[i]).package,
    ) by {
        assert(q.stack[i] == p.stack[i]);
        assert(!p.copies.contains(p.stack[i].package));
        assert(p.stack[i].package != p.stack[top].package);
        lemma_push_contains(p.copies, v, q.stack[i].package);
    }
    if patch {
        assert(p.stack[0].package != p.stack[top].package);
        assert(q.copies.no_duplicates()) by {
            assert forall|a: int, b: int|
                0 <= a < q.copies.len() && 0 <= b < q.copies.len() && a != b implies q.copies[a]
                != q.copies[b] by {
                if a < p.copies.len() {
                    assert(p.copies[a] == q.copies[a]);
                }
                if b < p.copies.len() {
                    assert(p.copies[b] == q.copies[b]);
                }
            }
        }
        assert forall|a: int| 0 <= a < q.copies.len() implies {
            &&& q.done.contains(#[trigger] q.copies[a])
            &&& q.copies[a] != root
        } by {
            if a < p.copies.len() {
                assert(p.copies[a] == q.copies[a]);
            }
        }
        assert forall|a: int, j: int|
            0 <= a < q.copies.len() && 0 <= j < g.degree(q.copies[a]) && !targeted(
                g,
                rules,
                #[trigger] g.dep(q.copies[a], j),
            ) && needs_patch(g, rules, g.dep(q.copies[a], j)) implies exists|b: int|
            0 <= b < a && q.copies[b] == g.dep(q.copies[a], j) by {
            let c = g.dep(q.copies[a], j);
            if a < p.copies.len() {
                assert(p.copies[a] == q.copies[a]);
                let b = choose|b: int| 0 <= b < a && p.copies[b] == g.dep(p.copies[a], j);
                assert(q.copies[b] == c);
            } else {
                assert(j < settled(p.stack, top));
                assert(p.done.contains(g.dep(p.stack[top].package, j)));
                assert(c != root);
                assert(p.copies.contains(c));
                let b = choose|b: int| 0 <= b < p.copies.len() && p.copies[b] == c;
                assert(q.copies[b] == c);
            }
        }
    } else {
        assert forall|a: int| 0 <= a < q.copies.len() implies {
            &&& q.done.contains(#[trigger] q.copies[a])
            &&& q.copies[a] != root
        } by {
            assert(p.done.contains(p.copies[a]));
        }
    }
}

/// Ending the top visit keeps the invariant and uses up budget. Its
/// package is materialized if it is not the root and needs a patch.
pub proof fn lemma_retire(
    g: &Graph,
    rules: Map<Seq<char>, Seq<char>>,
    root: int,
    p: Progress,
    d: nat,
)
    requires
        walk_ok(g, rules, root, p),
        p.stack.len() > 0,
        p.stack.last().cursor == g.degree(p.stack.last().package),
    ensures
        walk_ok(g, rules, root, retire(p, patches(g, rules, p))),
        budget(g, retire(p, patches(g, rules, p)).stack, d) < budget(g, p.stack, d),
        p.stack.len() > 1 ==> p.stack.last().package != root && !targeted(
            g,
            rules,
            p.stack.last().package,
        ),
        p.stack.len() == 1 ==> p.stack.last().package == root,
        visited(g, rules, root, p.stack.last().package),
{
    let top = p.stack.len() - 1;
    lemma_retire_stack(g, rules, root, p);
    lemma_retire_done(g, rules, root, p);
    lemma_retire_copies(g, rules, root, p);
    lemma_stack_visited(g, rules, root, p.stack, top);
    assert(p.stack[0].package == root);
    if top > 0 {
        assert(p.stack[0].package != p.stack[top].package);
        assert(!targeted(g, rules, p.stack[top].package));
    }
    assert(cost(0, (g.size() - p.stack.len()) as nat, d) == 1);
}

/// A dependency that no rule names and that stands on the stack closes a
/// cycle among the visited packages.
pub proof fn lemma_cycle(
    g: &Graph,
    rules: Map<Seq<char>, Seq<char>>,
    root: int,
    p: Progress,
    at: int,
) -> (path: Seq<int>)
    requires
        walk_ok(g, rules, root, p),
        p.stack.len() > 0,
        p.stack.last().cursor < g.degree(p.stack.last().package),
        !targeted(g, rules, next_dep(g, p)),
        0 <= at < p.stack.len(),
        p.stack[at].package == next_dep(g, p),
    ensures
        loops(g, rules, root, path),
        path[0] == next_dep(g, p),
        cyclic(g, rules, root),
{
    let child = next_dep(g, p);
    let top = p.stack.len() - 1;
    let count = p.stack.len() - at;
    let path = Seq::new(
        (count + 1) as nat,
        |k: int|
            if k < count {
                p.stack[at + k].package
            } else {
                child
            },
    );
    assert(0 <= child < g.size());
    assert forall|i: int| 0 <= i < path.len() implies 0 <= #[trigger] path[i] < g.size() by {
        if i < count {
            assert(path[i] == p.stack[at + i].package);
        }
    }
    assert forall|i: int| 0 <= i < path.len() - 1 implies g.edge(#[trigger] path[i], path[i + 1]) by {
        let v = p.stack[at + i];
        assert(path[i] == v.package);
        if i < count - 1 {
            assert(linked(g, p.stack, at + i));
            assert(g.dep(v.package, v.cursor - 1) == path[i + 1]);
        } else {
            assert(g.dep(v.package, v.cursor) == path[i + 1]);
        }
    }
    assert forall|i: int| 1 <= i < path.len() implies !targeted(g, rules, #[trigger] path[i]) by {
        if i < count {
            assert(path[i] == p.stack[at + i].package);
        }
    }
    lemma_stack_visited(g, rules, root, p.stack, at);
    assert(path[0] == p.stack[at].package);
    assert(path.last() == child);
    assert(loops(g, rules, root, path));
    path
}

/// When the walk has ended, the visit of every package that it reaches has
/// ended, those that need a patch are materialized, and there is no cycle
/// among them.
pub proof fn lemma_finished(g: &Graph, rules: Map<Seq<char>, Seq<char>>, root: int, p: Progress)
    requires
        walk_ok(g, rules, root, p),
        p.stack.len() == 0,
    ensures
        !cyclic(g, rules, root),
        forall|v: int| visited(g, rules, root, v) ==> p.done.contains(v),
        forall|v: int|
            v != root && visited(g, rules, root, v) && needs_patch(g, rules, v)
                ==> p.copies.contains(v),
{
    assert forall|v: int| visited(g, rules, root, v) implies p.done.contains(v) by {
        let path = choose|path: Seq<int>| #[trigger]
            descends(g, rules, path) && path[0] == root && path.last() == v;
        lemma_closed_set(g, rules, p.done, p.rank, path);
    }
    if cyclic(g, rules, root) {
        let path = choose|path: Seq<int>| #[trigger] loops(g, rules, root, path);
        assert(p.done.contains(path[0]));
        lemma_closed_set(g, rules, p.done, p.rank, path);
    }
}

} // verus!
