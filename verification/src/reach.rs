use vstd::prelude::*;
use crate::graph::Graph;
use crate::source::Source;
use crate::text::child_path;

verus! {

/// A rule names package `p`: every dependency on it is redirected to the
/// rule's URL, and the walk does not descend into it.
pub open spec fn targeted(g: &Graph, rules: Map<Seq<char>, Seq<char>>, p: int) -> bool {
    rules.contains_key(g.name(p))
}

/// A path along which the walk descends: no rule names a package after
/// the first.
pub open spec fn descends(g: &Graph, rules: Map<Seq<char>, Seq<char>>, path: Seq<int>) -> bool {
    &&& g.is_path(path)
    &&& forall|i: int| 1 <= i < path.len() ==> !targeted(g, rules, #[trigger] path[i])
}

/// The walk that starts at `root` visits package `v`.
pub open spec fn visited(g: &Graph, rules: Map<Seq<char>, Seq<char>>, root: int, v: int) -> bool {
    exists|path: Seq<int>| #[trigger]
        descends(g, rules, path) && path[0] == root && path.last() == v
}

/// A path of at least one step whose last package is the first after its
/// start that a rule names.
pub open spec fn reaches_rule(g: &Graph, rules: Map<Seq<char>, Seq<char>>, path: Seq<int>) -> bool {
    &&& g.is_path(path)
    &&& path.len() >= 2
    &&& targeted(g, rules, path.last())
    &&& forall|i: int| 1 <= i < path.len() - 1 ==> !targeted(g, rules, #[trigger] path[i])
}

/// Some direct or transitive dependency of `v` is substituted by a rule,
/// so that the manifest of `v` has to be rewritten.
pub open spec fn needs_patch(g: &Graph, rules: Map<Seq<char>, Seq<char>>, v: int) -> bool {
    exists|path: Seq<int>| #[trigger] reaches_rule(g, rules, path) && path[0] == v
}

/// A dependency on package `d` is redirected: to a rule's URL, or to the
/// patched copy of `d`.
pub open spec fn redirected(g: &Graph, rules: Map<Seq<char>, Seq<char>>, d: int) -> bool {
    targeted(g, rules, d) || needs_patch(g, rules, d)
}

/// A cycle among the packages that the walk from `root` visits.
pub open spec fn loops(
    g: &Graph,
    rules: Map<Seq<char>, Seq<char>>,
    root: int,
    path: Seq<int>,
) -> bool {
    &&& descends(g, rules, path)
    &&& path.len() >= 2
    &&& path[0] == path.last()
    &&& visited(g, rules, root, path[0])
}

/// The walk from `root` runs into a dependency cycle.
pub open spec fn cyclic(g: &Graph, rules: Map<Seq<char>, Seq<char>>, root: int) -> bool {
    exists|path: Seq<int>| #[trigger] loops(g, rules, root, path)
}

/// What a dependency on package `d` is replaced with, where it is
/// redirected.
pub open spec fn replacement_for(
    g: &Graph,
    rules: Map<Seq<char>, Seq<char>>,
    workdir: Seq<char>,
    d: int,
) -> Source {
    if targeted(g, rules, d) {
        Source::Remote(rules[g.name(d)])
    } else {
        Source::Local(child_path(workdir, g.name(d)))
    }
}

/// The substitutions that the first `m` direct dependencies of package `v`
/// induce in its manifest.
pub open spec fn induced(
    g: &Graph,
    rules: Map<Seq<char>, Seq<char>>,
    workdir: Seq<char>,
    v: int,
    m: int,
) -> Map<Seq<char>, Source>
    decreases m,
{
    if m <= 0 {
        Map::empty()
    } else {
        let d = g.dep(v, m - 1);
        let before = induced(g, rules, workdir, v, m - 1);
        if redirected(g, rules, d) {
            before.insert(g.name(d), replacement_for(g, rules, workdir, d))
        } else {
            before
        }
    }
}

/// All substitutions that package `v` has to apply to its manifest.
pub open spec fn induced_all(
    g: &Graph,
    rules: Map<Seq<char>, Seq<char>>,
    workdir: Seq<char>,
    v: int,
) -> Map<Seq<char>, Source> {
    induced(g, rules, workdir, v, g.degree(v) as int)
}

/// The root is visited.
pub proof fn lemma_root_visited(g: &Graph, rules: Map<Seq<char>, Seq<char>>, root: int)
    requires
        0 <= root < g.size(),
    ensures
        visited(g, rules, root, root),
{
    let path = seq![root];
    assert(descends(g, rules, path));
}

/// The walk goes on from a visited package to each direct dependency that
/// no rule names.
pub proof fn lemma_visited_step(
    g: &Graph,
    rules: Map<Seq<char>, Seq<char>>,
    root: int,
    v: int,
    j: int,
)
    requires
        g.wf(),
        visited(g, rules, root, v),
        0 <= j < g.degree(v),
        !targeted(g, rules, g.dep(v, j)),
    ensures
        visited(g, rules, root, g.dep(v, j)),
{
    let path = choose|path: Seq<int>| #[trigger]
        descends(g, rules, path) && path[0] == root && path.last() == v;
    let d = g.dep(v, j);
    let longer = path.push(d);
    assert(g.is_path(longer)) by {
        assert forall|i: int| 0 <= i < longer.len() implies 0 <= #[trigger] longer[i]
            < g.size() by {
            if i < path.len() {
                assert(longer[i] == path[i]);
            }
        }
        assert forall|i: int| 0 <= i < longer.len() - 1 implies g.edge(
            #[trigger] longer[i],
            longer[i + 1],
        ) by {
            if i < path.len() - 1 {
                assert(g.edge(path[i], path[i + 1]));
            } else {
                assert(longer[i] == v);
                assert(g.dep(v, j) == longer[i + 1]);
            }
        }
    }
    assert forall|i: int| 1 <= i < longer.len() implies !targeted(
        g,
        rules,
        #[trigger] longer[i],
    ) by {
        if i < path.len() {
            assert(longer[i] == path[i]);
        }
    }
    assert(descends(g, rules, longer));
}

/// A package needs a patch exactly if a dependency on one of its direct
/// dependencies is redirected.
pub proof fn lemma_needs_patch_unfold(g: &Graph, rules: Map<Seq<char>, Seq<char>>, v: int)
    requires
        g.wf(),
        0 <= v < g.size(),
    ensures
        needs_patch(g, rules, v) <==> exists|j: int|
            0 <= j < g.degree(v) && redirected(g, rules, #[trigger] g.dep(v, j)),
{
    if needs_patch(g, rules, v) {
        let path = choose|path: Seq<int>| #[trigger] reaches_rule(g, rules, path) && path[0] == v;
        assert(g.edge(path[0], path[1]));
        let j = choose|j: int| 0 <= j < g.degree(v) && #[trigger] g.dep(v, j) == path[1];
        if path.len() > 2 {
            let rest = path.subrange(1, path.len() as int);
            assert(g.is_path(rest)) by {
                assert forall|i: int| 0 <= i < rest.len() - 1 implies g.edge(
                    #[trigger] rest[i],
                    rest[i + 1],
                ) by {
                    assert(g.edge(path[i + 1], path[i + 2]));
                }
                assert forall|i: int| 0 <= i < rest.len() implies 0 <= #[trigger] rest[i]
                    < g.size() by {
                    assert(rest[i] == path[i + 1]);
                }
            }
            assert forall|i: int| 1 <= i < rest.len() - 1 implies !targeted(
                g,
                rules,
                #[trigger] rest[i],
            ) by {
                assert(rest[i] == path[i + 1]);
            }
            assert(rest.last() == path.last());
            assert(reaches_rule(g, rules, rest));
            assert(needs_patch(g, rules, g.dep(v, j)));
        } else {
            assert(path.last() == path[1]);
        }
        assert(redirected(g, rules, g.dep(v, j)));
    }
    if exists|j: int| 0 <= j < g.degree(v) && redirected(g, rules, #[trigger] g.dep(v, j)) {
        let j = choose|j: int| 0 <= j < g.degree(v) && redirected(g, rules, #[trigger] g.dep(v, j));
        let d = g.dep(v, j);
        if targeted(g, rules, d) {
            let path = seq![v, d];
            assert(g.is_path(path)) by {
                assert forall|i: int| 0 <= i < path.len() - 1 implies g.edge(
                    #[trigger] path[i],
                    path[i + 1],
                ) by {
                    assert(g.dep(v, j) == path[1]);
                }
            }
            assert(reaches_rule(g, rules, path));
        } else {
            let rest = choose|path: Seq<int>| #[trigger]
                reaches_rule(g, rules, path) && path[0] == d;
            let path = seq![v] + rest;
            assert(g.is_path(path)) by {
                assert forall|i: int| 0 <= i < path.len() - 1 implies g.edge(
                    #[trigger] path[i],
                    path[i + 1],
                ) by {
                    if i == 0 {
                        assert(path[1] == rest[0]);
                        assert(g.dep(v, j) == path[1]);
                    } else {
                        assert(g.edge(rest[i - 1], rest[i]));
                    }
                }
                assert forall|i: int| 0 <= i < path.len() implies 0 <= #[trigger] path[i]
                    < g.size() by {
                    if i > 0 {
                        assert(path[i] == rest[i - 1]);
                    }
                }
            }
            assert forall|i: int| 1 <= i < path.len() - 1 implies !targeted(
                g,
                rules,
                #[trigger] path[i],
            ) by {
                assert(path[i] == rest[i - 1]);
            }
            assert(path.last() == rest.last());
            assert(reaches_rule(g, rules, path));
        }
    }
}

/// The induced substitutions are empty exactly if no dependency among the
/// first `m` is redirected.
pub proof fn lemma_induced_empty(
    g: &Graph,
    rules: Map<Seq<char>, Seq<char>>,
    workdir: Seq<char>,
    v: int,
    m: int,
)
    requires
        0 <= m <= g.degree(v),
    ensures
        induced(g, rules, workdir, v, m) == Map::<Seq<char>, Source>::empty() <==> forall|j: int|
            0 <= j < m ==> !redirected(g, rules, #[trigger] g.dep(v, j)),
    decreases m,
{
    if m > 0 {
        lemma_induced_empty(g, rules, workdir, v, m - 1);
        let d = g.dep(v, m - 1);
        if redirected(g, rules, d) {
            assert(induced(g, rules, workdir, v, m).contains_key(g.name(d)));
        }
    }
}

/// The induced substitutions name only direct dependencies that are
/// redirected, and give each what a dependency on it is replaced with.
pub proof fn lemma_induced_entries(
    g: &Graph,
    rules: Map<Seq<char>, Seq<char>>,
    workdir: Seq<char>,
    v: int,
    m: int,
    name: Seq<char>,
)
    requires
        0 <= m <= g.degree(v),
    ensures
        induced(g, rules, workdir, v, m).contains_key(name) <==> exists|j: int|
            0 <= j < m && redirected(g, rules, #[trigger] g.dep(v, j)) && g.name(g.dep(v, j))
                == name,
        induced(g, rules, workdir, v, m).contains_key(name) ==> induced(
            g,
            rules,
            workdir,
            v,
            m,
        )[name] == (if rules.contains_key(name) {
            Source::Remote(rules[name])
        } else {
            Source::Local(child_path(workdir, name))
        }),
    decreases m,
{
    if m > 0 {
        lemma_induced_entries(g, rules, workdir, v, m - 1, name);
        let d = g.dep(v, m - 1);
        if exists|j: int|
            0 <= j < m - 1 && redirected(g, rules, #[trigger] g.dep(v, j)) && g.name(g.dep(v, j))
                == name {
            let j = choose|j: int|
                0 <= j < m - 1 && redirected(g, rules, #[trigger] g.dep(v, j)) && g.name(
                    g.dep(v, j),
                ) == name;
            assert(0 <= j < m && redirected(g, rules, g.dep(v, j)) && g.name(g.dep(v, j)) == name);
        }
        if redirected(g, rules, d) && g.name(d) == name {
            assert(0 <= m - 1 < m && redirected(g, rules, g.dep(v, m - 1)) && g.name(
                g.dep(v, m - 1),
            ) == name);
        }
    }
}

/// Ranks that fall along every step of the walk rule out a cycle, and a
/// set that holds the root and is closed under the walk's steps holds
/// every visited package.
pub proof fn lemma_closed_set(
    g: &Graph,
    rules: Map<Seq<char>, Seq<char>>,
    done: Set<int>,
    rank: Map<int, nat>,
    path: Seq<int>,
)
    requires
        g.wf(),
        done.contains(path[0]),
        descends(g, rules, path),
        forall|v: int, j: int|
            done.contains(v) && 0 <= v < g.size() && 0 <= j < g.degree(v) && !targeted(
                g,
                rules,
                #[trigger] g.dep(v, j),
            ) ==> done.contains(g.dep(v, j)) && rank[g.dep(v, j)] < rank[v],
    ensures
        done.contains(path.last()),
        path.len() >= 2 ==> rank[path.last()] < rank[path[0]],
    decreases path.len(),
{
    if path.len() >= 2 {
        let front = path.drop_last();
        assert(descends(g, rules, front)) by {
            assert forall|i: int| 0 <= i < front.len() - 1 implies g.edge(
                #[trigger] front[i],
                front[i + 1],
            ) by {
                assert(g.edge(path[i], path[i + 1]));
            }
            assert forall|i: int| 0 <= i < front.len() implies 0 <= #[trigger] front[i]
                < g.size() by {
                assert(front[i] == path[i]);
            }
            assert forall|i: int| 1 <= i < front.len() implies !targeted(
                g,
                rules,
                #[trigger] front[i],
            ) by {
                assert(front[i] == path[i]);
            }
        }
        lemma_closed_set(g, rules, done, rank, front);
        let v = front.last();
        let d = path.last();
        assert(v == path[path.len() - 2]);
        assert(g.edge(path[path.len() - 2], path[path.len() - 2 + 1]));
        let j = choose|j: int| 0 <= j < g.degree(v) && #[trigger] g.dep(v, j) == d;
        assert(!targeted(g, rules, path[path.len() - 1]));
        assert(done.contains(g.dep(v, j)) && rank[g.dep(v, j)] < rank[v]);
    }
}

} // verus!
