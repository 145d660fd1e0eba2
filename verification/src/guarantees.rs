use vstd::prelude::*;
use crate::graph::Graph;
use crate::progress::{after, blocked, next};
use crate::reach::{
    descends, induced_all, lemma_induced_entries, lemma_root_visited, needs_patch, reaches_rule,
    targeted, visited,
};
use crate::rewrite::{
    any_malformed, is_dependency_table, lemma_field_names, lemma_table_names, malformed,
    malformed_at, normalized, rewritten, rewritten_section, source_key, source_text,
    without_origin,
};
use crate::source::Source;
use crate::toml_tree::Tree;
use crate::walk::{Action, Plan};

verus! {

/// The path starts at the root, passes through its `k`-th package after
/// the root, and goes on by at least one step to a package that a rule
/// names: the first such package after the root.
pub open spec fn passes_to_rule(
    g: &Graph,
    rules: Map<Seq<char>, Seq<char>>,
    root: int,
    path: Seq<int>,
    k: int,
) -> bool {
    &&& reaches_rule(g, rules, path)
    &&& path[0] == root
    &&& 0 < k < path.len() - 1
}

/// The plan has package `v` copied into the working directory.
pub open spec fn copies(plan: Plan, v: int) -> bool {
    exists|a: int|
        0 <= a < plan.actions@.len() && (#[trigger] plan.actions@[a]) is Materialize
            && plan.actions@[a]->package == v
}

/// A package other than the root is visited and needs a patch exactly if
/// some path from the root passes through it to the first package that a
/// rule names.
pub proof fn lemma_between_root_and_rule(
    g: &Graph,
    rules: Map<Seq<char>, Seq<char>>,
    root: int,
    v: int,
)
    requires
        v != root,
    ensures
        visited(g, rules, root, v) && needs_patch(g, rules, v) <==> exists|
            path: Seq<int>,
            k: int,
        | #[trigger] passes_to_rule(g, rules, root, path, k) && path[k] == v,
{
    if visited(g, rules, root, v) && needs_patch(g, rules, v) {
        let down = choose|path: Seq<int>| #[trigger]
            descends(g, rules, path) && path[0] == root && path.last() == v;
        let on = choose|path: Seq<int>| #[trigger] reaches_rule(g, rules, path) && path[0] == v;
        let k = down.len() - 1;
        let path = down + on.subrange(1, on.len() as int);
        assert forall|i: int| 0 <= i < path.len() implies 0 <= #[trigger] path[i] < g.size() by {
            if i <= k {
                assert(path[i] == down[i]);
            } else {
                assert(path[i] == on[i - k]);
            }
        }
        assert forall|i: int| 0 <= i < path.len() - 1 implies g.edge(
            #[trigger] path[i],
            path[i + 1],
        ) by {
            if i < k {
                assert(g.edge(down[i], down[i + 1]));
            } else {
                assert(path[i] == on[i - k]);
                assert(path[i + 1] == on[i - k + 1]);
                assert(g.edge(on[i - k], on[i - k + 1]));
            }
        }
        assert forall|i: int| 1 <= i < path.len() - 1 implies !targeted(
            g,
            rules,
            #[trigger] path[i],
        ) by {
            if i <= k {
                assert(path[i] == down[i]);
            } else {
                assert(path[i] == on[i - k]);
            }
        }
        assert(path.last() == on.last());
        assert(path[k] == v);
        assert(passes_to_rule(g, rules, root, path, k));
    }
    if exists|path: Seq<int>, k: int| #[trigger]
        passes_to_rule(g, rules, root, path, k) && path[k] == v {
        let (path, k) = choose|path: Seq<int>, k: int| #[trigger]
            passes_to_rule(g, rules, root, path, k) && path[k] == v;
        let down = path.subrange(0, k + 1);
        let on = path.subrange(k, path.len() as int);
        assert(descends(g, rules, down)) by {
            assert forall|i: int| 0 <= i < down.len() implies 0 <= #[trigger] down[i]
                < g.size() by {
                assert(down[i] == path[i]);
            }
            assert forall|i: int| 0 <= i < down.len() - 1 implies g.edge(
                #[trigger] down[i],
                down[i + 1],
            ) by {
                assert(g.edge(path[i], path[i + 1]));
            }
            assert forall|i: int| 1 <= i < down.len() implies !targeted(
                g,
                rules,
                #[trigger] down[i],
            ) by {
                assert(down[i] == path[i]);
            }
        }
        assert(down[0] == root && down.last() == v);
        assert(reaches_rule(g, rules, on)) by {
            assert forall|i: int| 0 <= i < on.len() implies 0 <= #[trigger] on[i] < g.size() by {
                assert(on[i] == path[i + k]);
            }
            assert forall|i: int| 0 <= i < on.len() - 1 implies g.edge(
                #[trigger] on[i],
                on[i + 1],
            ) by {
                assert(g.edge(path[i + k], path[i + k + 1]));
            }
            assert forall|i: int| 1 <= i < on.len() - 1 implies !targeted(
                g,
                rules,
                #[trigger] on[i],
            ) by {
                assert(on[i] == path[i + k]);
            }
            assert(on.last() == path.last());
        }
        assert(on[0] == v);
    }
}

/// A walk that met no cycle has a package other than the
/// root copied into the working directory exactly if some path from the
/// root passes through the package and goes on, by at least one step, to a
/// package that a rule names, with no such package on the path between
/// the root and that one.
pub proof fn lemma_copied_iff_above_rule(
    g: &Graph,
    rules: Map<Seq<char>, Seq<char>>,
    workdir: Seq<char>,
    root: int,
    plan: Plan,
    v: int,
)
    requires
        g.wf(),
        0 <= root < g.size(),
        plan.fulfils(g, rules, workdir, root),
        plan.cycle is None,
        v != root,
    ensures
        copies(plan, v) <==> exists|path: Seq<int>, k: int| #[trigger]
            passes_to_rule(g, rules, root, path, k) && path[k] == v,
{
    lemma_between_root_and_rule(g, rules, root, v);
    if copies(plan, v) {
        let a = choose|a: int|
            0 <= a < plan.actions@.len() && (#[trigger] plan.actions@[a]) is Materialize
                && plan.actions@[a]->package == v;
        assert(plan.actions@[a].due(g, rules, workdir, root));
    }
    if visited(g, rules, root, v) && needs_patch(g, rules, v) {
        let a = choose|a: int|
            0 <= a < plan.actions@.len() && (#[trigger] plan.actions@[a]).subject(root) == v;
        assert(plan.actions@[a] is Materialize);
    }
}

/// A package is never copied twice.
pub proof fn lemma_copied_once(
    g: &Graph,
    rules: Map<Seq<char>, Seq<char>>,
    workdir: Seq<char>,
    root: int,
    plan: Plan,
    a: int,
    b: int,
)
    requires
        plan.fulfils(g, rules, workdir, root),
        0 <= a < plan.actions@.len(),
        0 <= b < plan.actions@.len(),
        plan.actions@[a].subject(root) == plan.actions@[b].subject(root),
    ensures
        a == b,
{
    if a < b {
        assert(plan.actions@[a].subject(root) != plan.actions@[b].subject(root));
    } else if b < a {
        assert(plan.actions@[b].subject(root) != plan.actions@[a].subject(root));
    }
}

/// A walk that met no cycle rewrites the root's manifest
/// exactly if some direct or transitive dependency of the root is
/// substituted, and then once: as its last action, with the substitutions
/// that the root's dependencies induce.
pub proof fn lemma_root_rewritten_once(
    g: &Graph,
    rules: Map<Seq<char>, Seq<char>>,
    workdir: Seq<char>,
    root: int,
    plan: Plan,
)
    requires
        0 <= root < g.size(),
        plan.fulfils(g, rules, workdir, root),
        plan.cycle is None,
    ensures
        needs_patch(g, rules, root) <==> exists|a: int|
            0 <= a < plan.actions@.len() && (#[trigger] plan.actions@[a]) is RewriteRoot,
        forall|a: int, b: int|
            0 <= a < plan.actions@.len() && 0 <= b < plan.actions@.len() && (
            #[trigger] plan.actions@[a]) is RewriteRoot && (#[trigger] plan.actions@[b])
                is RewriteRoot ==> a == b,
        needs_patch(g, rules, root) ==> plan.actions@.len() > 0 && plan.actions@.last()
            is RewriteRoot && plan.actions@.last().changes()@ == induced_all(
            g,
            rules,
            workdir,
            root,
        ),
{
    lemma_root_visited(g, rules, root);
    if needs_patch(g, rules, root) {
        let a = choose|a: int|
            0 <= a < plan.actions@.len() && (#[trigger] plan.actions@[a]).subject(root) == root;
        assert(plan.actions@[a].due(g, rules, workdir, root));
        assert(plan.actions@[a] is RewriteRoot);
    }
}

/// The entry for the dependency `name` under the top-level table `table`
/// of a manifest, if there is one.
pub open spec fn entry_at(doc: Tree, table: Seq<char>, name: Seq<char>) -> Option<Tree> {
    match doc {
        Tree::Table(top) => if top.contains_key(table) {
            match top[table] {
                Tree::Table(deps) => if deps.contains_key(name) {
                    Some(deps[name])
                } else {
                    None
                },
                _ => None,
            }
        } else {
            None
        },
        _ => None,
    }
}

/// Rewriting a manifest redirects each entry of a dependency table whose
/// name has a substitution, and leaves every other entry, and every
/// top-level item that is no dependency table, as it is.
pub proof fn lemma_rewritten_entries(
    doc: Tree,
    subs: Map<Seq<char>, Source>,
    table: Seq<char>,
    name: Seq<char>,
)
    ensures
        entry_at(rewritten(doc, subs), table, name) == if is_dependency_table(table)
            && subs.contains_key(name) {
            match entry_at(doc, table, name) {
                Some(entry) => Some(normalized(entry, subs[name])),
                None => None,
            }
        } else {
            entry_at(doc, table, name)
        },
        doc is Table ==> rewritten(doc, subs) is Table && (rewritten(
            doc,
            subs,
        )->Table_0.contains_key(table) <==> doc->Table_0.contains_key(table)),
        doc is Table && doc->Table_0.contains_key(table) && !is_dependency_table(table)
            ==> rewritten(doc, subs)->Table_0[table] == doc->Table_0[table],
{
    if let Tree::Table(top) = doc {
        if top.contains_key(table) && is_dependency_table(table) {
            let section = rewritten_section(top[table], subs);
            assert(rewritten(doc, subs)->Table_0[table] == section);
        }
    }
}

/// A dependency name for which there is no
/// substitution is not touched: its entry under every table of the
/// rewritten manifest is the entry that it had.
pub proof fn lemma_unnamed_untouched(
    doc: Tree,
    subs: Map<Seq<char>, Source>,
    table: Seq<char>,
    name: Seq<char>,
)
    requires
        !subs.contains_key(name),
    ensures
        entry_at(rewritten(doc, subs), table, name) == entry_at(doc, table, name),
{
    lemma_rewritten_entries(doc, subs, table, name);
}

/// A dependency name that no
/// rule names, and that no dependency of package `v` bears which needs a
/// patch, has no substitution in the manifest of `v`, so that its entries
/// there stay as they are.
pub proof fn lemma_unrelated_untouched(
    g: &Graph,
    rules: Map<Seq<char>, Seq<char>>,
    workdir: Seq<char>,
    v: int,
    doc: Tree,
    table: Seq<char>,
    name: Seq<char>,
)
    requires
        0 <= v < g.size(),
        !rules.contains_key(name),
        forall|j: int|
            0 <= j < g.degree(v) && g.name(#[trigger] g.dep(v, j)) == name ==> !needs_patch(
                g,
                rules,
                g.dep(v, j),
            ),
    ensures
        !induced_all(g, rules, workdir, v).contains_key(name),
        entry_at(rewritten(doc, induced_all(g, rules, workdir, v)), table, name) == entry_at(
            doc,
            table,
            name,
        ),
{
    lemma_induced_entries(g, rules, workdir, v, g.degree(v) as int, name);
    lemma_unnamed_untouched(doc, induced_all(g, rules, workdir, v), table, name);
}

/// A name that has a substitution and an entry under
/// each of `dependencies`, `dev-dependencies` and `build-dependencies` has
/// all three entries redirected.
pub proof fn lemma_three_tables(doc: Tree, subs: Map<Seq<char>, Source>, name: Seq<char>)
    requires
        subs.contains_key(name),
        entry_at(doc, "dependencies"@, name) is Some,
        entry_at(doc, "dev-dependencies"@, name) is Some,
        entry_at(doc, "build-dependencies"@, name) is Some,
    ensures
        entry_at(rewritten(doc, subs), "dependencies"@, name) == Some(
            normalized(entry_at(doc, "dependencies"@, name)->0, subs[name]),
        ),
        entry_at(rewritten(doc, subs), "dev-dependencies"@, name) == Some(
            normalized(entry_at(doc, "dev-dependencies"@, name)->0, subs[name]),
        ),
        entry_at(rewritten(doc, subs), "build-dependencies"@, name) == Some(
            normalized(entry_at(doc, "build-dependencies"@, name)->0, subs[name]),
        ),
{
    lemma_table_names();
    lemma_rewritten_entries(doc, subs, "dependencies"@, name);
    lemma_rewritten_entries(doc, subs, "dev-dependencies"@, name);
    lemma_rewritten_entries(doc, subs, "build-dependencies"@, name);
}

/// The fields that an entry has if it is a table; a string has none.
pub open spec fn fields_of(entry: Tree) -> Map<Seq<char>, Tree> {
    match entry {
        Tree::Table(fields) => fields,
        _ => Map::empty(),
    }
}

/// A redirected entry is a table. It holds exactly one
/// of `path` and `git`, namely the replacement source, and no `version`.
/// Every other field is one that the entry had, unchanged, and every other
/// field that the entry had is still there.
pub proof fn lemma_normalized_shape(entry: Tree, source: Source, key: Seq<char>)
    requires
        !(entry is Other),
    ensures
        normalized(entry, source) is Table,
        !fields_of(normalized(entry, source)).contains_key("version"@),
        fields_of(normalized(entry, source)).contains_key("path"@) <==> source is Local,
        fields_of(normalized(entry, source)).contains_key("git"@) <==> source is Remote,
        fields_of(normalized(entry, source))[source_key(source)] == Tree::Text(
            source_text(source),
        ),
        key != "version"@ && key != "path"@ && key != "git"@ ==> (fields_of(
            normalized(entry, source),
        ).contains_key(key) <==> fields_of(entry).contains_key(key)),
        key != "version"@ && key != "path"@ && key != "git"@ && fields_of(entry).contains_key(key)
            ==> fields_of(normalized(entry, source))[key] == fields_of(entry)[key],
{
    lemma_field_names();
    assert(without_origin(Map::<Seq<char>, Tree>::empty()) =~= Map::<Seq<char>, Tree>::empty());
}

/// Redirecting an entry again to the same source changes nothing.
pub proof fn lemma_normalized_twice(entry: Tree, source: Source)
    ensures
        normalized(normalized(entry, source), source) == normalized(entry, source),
{
    lemma_field_names();
    if !(entry is Other) {
        let once = fields_of(normalized(entry, source));
        let twice = fields_of(normalized(normalized(entry, source), source));
        assert(without_origin(Map::<Seq<char>, Tree>::empty()) =~= Map::<Seq<char>, Tree>::empty());
        assert(once =~= twice);
    }
}

/// Rewriting a rewritten manifest with the same substitutions
/// changes nothing, and finds nothing that it cannot redirect.
pub proof fn lemma_rewritten_twice(doc: Tree, subs: Map<Seq<char>, Source>)
    requires
        !any_malformed(doc, subs),
    ensures
        rewritten(rewritten(doc, subs), subs) == rewritten(doc, subs),
        !any_malformed(rewritten(doc, subs), subs),
{
    let once = rewritten(doc, subs);
    let twice = rewritten(once, subs);
    if let Tree::Table(top) = doc {
        assert forall|key: Seq<char>| top.contains_key(key) implies twice->Table_0[key]
            == once->Table_0[key] by {
            if is_dependency_table(key) {
                if let Tree::Table(deps) = top[key] {
                    let first = rewritten_section(top[key], subs)->Table_0;
                    let second = rewritten_section(once->Table_0[key], subs)->Table_0;
                    assert forall|name: Seq<char>| deps.contains_key(name) implies second[name]
                        == first[name] by {
                        if subs.contains_key(name) {
                            lemma_normalized_twice(deps[name], subs[name]);
                        }
                    }
                    assert(second =~= first);
                }
            }
        }
        assert(twice->Table_0 =~= once->Table_0);
    }
    assert forall|name: Seq<char>| !malformed(once, subs, name) by {
        assert forall|table: Seq<char>| is_dependency_table(table) implies !malformed_at(
            once,
            subs,
            table,
            name,
        ) by {
            if malformed_at(once, subs, table, name) {
                let deps = doc->Table_0[table]->Table_0;
                assert(once->Table_0[table] == rewritten_section(doc->Table_0[table], subs));
                assert(deps[name] is Other);
                assert(malformed_at(doc, subs, table, name));
                assert(malformed(doc, subs, name));
            }
        }
    }
}

/// Two actions ask for the same thing.
pub open spec fn same_action(one: Action, other: Action) -> bool {
    match (one, other) {
        (
            Action::Materialize { package: p1, directory: d1, substitutions: s1 },
            Action::Materialize { package: p2, directory: d2, substitutions: s2 },
        ) => p1 == p2 && d1@ == d2@ && s1@ == s2@,
        (Action::RewriteRoot { substitutions: s1 }, Action::RewriteRoot { substitutions: s2 }) => s1@
            == s2@,
        _ => false,
    }
}

/// A walk that has ended, or that a cycle has stopped, stays as it is.
proof fn lemma_stays(g: &Graph, rules: Map<Seq<char>, Seq<char>>, root: int, n: nat, m: nat)
    requires
        n <= m,
        after(g, rules, root, n).stack.len() == 0 || blocked(g, rules, after(g, rules, root, n)),
    ensures
        after(g, rules, root, m) == after(g, rules, root, n),
    decreases m - n,
{
    if n < m {
        lemma_stays(g, rules, root, n, (m - 1) as nat);
        assert(after(g, rules, root, m) == next(g, rules, after(g, rules, root, (m - 1) as nat)));
    }
}

/// The walk decides one plan: two plans for the same graph, root, rules and
/// working directory report the same cycle, or none, and ask for the same
/// actions in the same order.
pub proof fn lemma_one_plan(
    g: &Graph,
    rules: Map<Seq<char>, Seq<char>>,
    workdir: Seq<char>,
    root: int,
    first: Plan,
    second: Plan,
)
    requires
        first.fulfils(g, rules, workdir, root),
        second.fulfils(g, rules, workdir, root),
    ensures
        first.cycle == second.cycle,
        first.actions@.len() == second.actions@.len(),
        forall|a: int|
            0 <= a < first.actions@.len() ==> same_action(
                #[trigger] first.actions@[a],
                second.actions@[a],
            ),
{
    let n1 = choose|n: nat| first.ends(g, rules, root, #[trigger] after(g, rules, root, n));
    let n2 = choose|n: nat| second.ends(g, rules, root, #[trigger] after(g, rules, root, n));
    if n1 <= n2 {
        lemma_stays(g, rules, root, n1, n2);
    } else {
        lemma_stays(g, rules, root, n2, n1);
    }
    let p = after(g, rules, root, n1);
    assert(p == after(g, rules, root, n2));
    assert forall|a: int| 0 <= a < first.actions@.len() implies same_action(
        #[trigger] first.actions@[a],
        second.actions@[a],
    ) by {
        assert(first.actions@[a].due(g, rules, workdir, root));
        assert(second.actions@[a].due(g, rules, workdir, root));
        if a < p.copies.len() {
            assert(first.actions@[a] is Materialize);
            assert(second.actions@[a] is Materialize);
        } else {
            assert(first.actions@[a] is RewriteRoot);
            assert(second.actions@[a] is RewriteRoot);
        }
    }
}

} // verus!
