use cargo_patch::graph::Graph;
use cargo_patch::rules::RuleSet;
use cargo_patch::source::{Replacement, Substitutions};
use cargo_patch::walk::{run, Action, Plan};

fn graph(names: &[&str], edges: &[(usize, usize)]) -> Graph {
    let mut g = Graph::new();
    for name in names {
        g.add_package(name.to_string(), format!("/src/{}/Cargo.toml", name));
    }
    for (from, to) in edges {
        assert!(g.add_dependency(*from, *to));
    }
    g
}

fn rules(pairs: &[(&str, &str)]) -> RuleSet {
    let mut r = RuleSet::new();
    for (name, url) in pairs {
        r.insert(name.to_string(), url.to_string());
    }
    r
}

fn subs(pairs: &[(&str, Replacement)]) -> Substitutions {
    let mut s = Substitutions::new();
    for (name, r) in pairs {
        s.insert(name.to_string(), r.clone());
    }
    s
}

fn remote(url: &str) -> Replacement {
    Replacement::Remote(url.to_string())
}

fn local(path: &str) -> Replacement {
    Replacement::Local(path.to_string())
}

fn copy(package: usize, directory: &str, substitutions: Substitutions) -> Action {
    Action::Materialize { package, directory: directory.to_string(), substitutions }
}

#[test]
fn direct_rule_rewrites_only_the_root() {
    let g = graph(&["A", "B"], &[(0, 1)]);
    let plan = run(&g, 0, &rules(&[("B", "https://x/b")]), "/cwd/cargo-patch");
    let expected = Plan {
        actions: vec![Action::RewriteRoot { substitutions: subs(&[("B", remote("https://x/b"))]) }],
        cycle: None,
    };
    assert_eq!(plan, expected);
}

#[test]
fn transitive_rule_copies_the_package_between() {
    let g = graph(&["A", "B", "C"], &[(0, 1), (1, 2)]);
    let plan = run(&g, 0, &rules(&[("C", "https://x/c")]), "/cwd/cargo-patch");
    let expected = Plan {
        actions: vec![
            copy(1, "/cwd/cargo-patch/B", subs(&[("C", remote("https://x/c"))])),
            Action::RewriteRoot { substitutions: subs(&[("B", local("/cwd/cargo-patch/B"))]) },
        ],
        cycle: None,
    };
    assert_eq!(plan, expected);
}

#[test]
fn diamond_copies_both_sides_and_never_the_rule_target() {
    let g = graph(&["A", "B", "C", "D"], &[(0, 1), (0, 2), (1, 3), (2, 3)]);
    let plan = run(&g, 0, &rules(&[("D", "https://x/d")]), "wd");
    let expected = Plan {
        actions: vec![
            copy(1, "wd/B", subs(&[("D", remote("https://x/d"))])),
            copy(2, "wd/C", subs(&[("D", remote("https://x/d"))])),
            Action::RewriteRoot {
                substitutions: subs(&[("B", local("wd/B")), ("C", local("wd/C"))]),
            },
        ],
        cycle: None,
    };
    assert_eq!(plan, expected);
    for action in &plan.actions {
        if let Action::Materialize { package, .. } = action {
            assert_ne!(*package, 3);
        }
    }
}

#[test]
fn cycle_stops_the_walk_without_actions() {
    let g = graph(&["A", "B"], &[(0, 1), (1, 0)]);
    let plan = run(&g, 0, &rules(&[]), "wd");
    assert_eq!(plan, Plan { actions: vec![], cycle: Some(0) });
}

#[test]
fn self_dependency_is_a_cycle() {
    let g = graph(&["A"], &[(0, 0)]);
    let plan = run(&g, 0, &rules(&[("X", "u")]), "wd");
    assert_eq!(plan.cycle, Some(0));
    assert!(plan.actions.is_empty());
}

#[test]
fn cycle_below_is_reported_with_the_package_on_it() {
    let g = graph(&["A", "B", "C"], &[(0, 1), (1, 2), (2, 1)]);
    let plan = run(&g, 0, &rules(&[]), "wd");
    assert_eq!(plan.cycle, Some(1));
    assert!(plan.actions.is_empty());
}

#[test]
fn copies_made_before_a_cycle_stay_in_the_plan() {
    // A -> B -> D (rule), then A -> C -> A.
    let g = graph(&["A", "B", "C", "D"], &[(0, 1), (0, 2), (1, 3), (2, 0)]);
    let plan = run(&g, 0, &rules(&[("D", "u")]), "wd");
    assert_eq!(plan.cycle, Some(0));
    assert_eq!(plan.actions, vec![copy(1, "wd/B", subs(&[("D", remote("u"))]))]);
}

#[test]
fn cycle_through_a_rule_target_is_not_entered() {
    let g = graph(&["A", "B"], &[(0, 1), (1, 0)]);
    let plan = run(&g, 0, &rules(&[("B", "u")]), "wd");
    assert_eq!(plan.cycle, None);
    assert_eq!(
        plan.actions,
        vec![Action::RewriteRoot { substitutions: subs(&[("B", remote("u"))]) }]
    );
}

#[test]
fn no_rules_no_actions() {
    let g = graph(&["A", "B"], &[(0, 1)]);
    let plan = run(&g, 0, &rules(&[]), "wd");
    assert_eq!(plan, Plan { actions: vec![], cycle: None });
}

#[test]
fn rule_without_matching_package_changes_nothing() {
    let g = graph(&["A", "B", "C"], &[(0, 1), (1, 2)]);
    let plan = run(&g, 0, &rules(&[("Z", "u")]), "wd");
    assert_eq!(plan, Plan { actions: vec![], cycle: None });
}

#[test]
fn second_run_gives_the_same_plan() {
    let g = graph(&["A", "B", "C"], &[(0, 1), (1, 2)]);
    let r = rules(&[("C", "https://x/c")]);
    let first = run(&g, 0, &r, "/cwd/cargo-patch");
    let second = run(&g, 0, &r, "/cwd/cargo-patch");
    assert_eq!(first, second);
}

#[test]
fn patched_package_is_copied_once_and_reused() {
    // A -> B, A -> C, C -> B, B -> D (rule).
    let g = graph(&["A", "B", "C", "D"], &[(0, 1), (0, 2), (2, 1), (1, 3)]);
    let plan = run(&g, 0, &rules(&[("D", "u")]), "wd");
    let expected = Plan {
        actions: vec![
            copy(1, "wd/B", subs(&[("D", remote("u"))])),
            copy(2, "wd/C", subs(&[("B", local("wd/B"))])),
            Action::RewriteRoot {
                substitutions: subs(&[("B", local("wd/B")), ("C", local("wd/C"))]),
            },
        ],
        cycle: None,
    };
    assert_eq!(plan, expected);
}

#[test]
fn walk_does_not_descend_into_a_rule_target() {
    // A -> B (rule) -> C -> D (rule): C lies below a substituted package only.
    let g = graph(&["A", "B", "C", "D"], &[(0, 1), (1, 2), (2, 3)]);
    let plan = run(&g, 0, &rules(&[("B", "ub"), ("D", "ud")]), "wd");
    assert_eq!(
        plan,
        Plan {
            actions: vec![Action::RewriteRoot { substitutions: subs(&[("B", remote("ub"))]) }],
            cycle: None,
        }
    );
}

#[test]
fn explicit_rule_wins_over_a_local_copy() {
    // B needs a patch itself, but a rule names it.
    let g = graph(&["A", "B", "C"], &[(0, 1), (1, 2)]);
    let plan = run(&g, 0, &rules(&[("B", "ub"), ("C", "uc")]), "wd");
    assert_eq!(
        plan.actions,
        vec![Action::RewriteRoot { substitutions: subs(&[("B", remote("ub"))]) }]
    );
}

#[test]
fn unpatched_sibling_is_left_alone() {
    // A -> B -> C (rule), A -> E -> F.
    let g = graph(&["A", "B", "C", "E", "F"], &[(0, 1), (1, 2), (0, 3), (3, 4)]);
    let plan = run(&g, 0, &rules(&[("C", "u")]), "wd");
    assert_eq!(plan.actions.len(), 2);
    assert_eq!(plan.actions[0], copy(1, "wd/B", subs(&[("C", remote("u"))])));
    match &plan.actions[1] {
        Action::RewriteRoot { substitutions } => {
            assert!(substitutions.get("E").is_none());
            assert!(substitutions.get("F").is_none());
            assert_eq!(substitutions.get("B"), Some(&local("wd/B")));
            assert_eq!(substitutions.len(), 1);
        }
        other => panic!("unexpected action {:?}", other),
    }
}

#[test]
fn dependencies_are_copied_before_their_dependents() {
    // A -> B -> C -> D (rule)
    let g = graph(&["A", "B", "C", "D"], &[(0, 1), (1, 2), (2, 3)]);
    let plan = run(&g, 0, &rules(&[("D", "u")]), "wd");
    let expected = Plan {
        actions: vec![
            copy(2, "wd/C", subs(&[("D", remote("u"))])),
            copy(1, "wd/B", subs(&[("C", local("wd/C"))])),
            Action::RewriteRoot { substitutions: subs(&[("B", local("wd/B"))]) },
        ],
        cycle: None,
    };
    assert_eq!(plan, expected);
}

#[test]
fn same_name_twice_gives_one_substitution() {
    // Two distinct packages called B under the root, both substituted.
    let g = graph(&["A", "B", "B"], &[(0, 1), (0, 2)]);
    let plan = run(&g, 0, &rules(&[("B", "u")]), "wd");
    assert_eq!(
        plan.actions,
        vec![Action::RewriteRoot { substitutions: subs(&[("B", remote("u"))]) }]
    );
}

#[test]
fn root_named_by_a_rule_is_still_walked() {
    let g = graph(&["A", "B"], &[(0, 1)]);
    let plan = run(&g, 0, &rules(&[("A", "ua"), ("B", "ub")]), "wd");
    assert_eq!(
        plan.actions,
        vec![Action::RewriteRoot { substitutions: subs(&[("B", remote("ub"))]) }]
    );
}

#[test]
fn graph_refuses_unknown_packages() {
    let mut g = graph(&["A", "B"], &[]);
    assert!(!g.add_dependency(0, 2));
    assert!(!g.add_dependency(2, 0));
    assert!(g.add_dependency(1, 0));
    assert_eq!(g.len(), 2);
    assert_eq!(g.deps, vec![vec![], vec![0]]);
    assert_eq!(g.packages[1].name, "B");
    assert_eq!(g.packages[1].manifest_path, "/src/B/Cargo.toml");
}

/// What the walk has to decide for a graph given as adjacency lists, found
/// by plain fixpoints: the packages that it reaches, those that need a
/// patch, and whether it meets a cycle.
struct Expected {
    reached: Vec<bool>,
    needs_patch: Vec<bool>,
    cyclic: bool,
}

fn expected(deps: &[Vec<usize>], targeted: &[bool], root: usize) -> Expected {
    let n = deps.len();
    let mut reached = vec![false; n];
    reached[root] = true;
    let mut needs_patch = vec![false; n];
    let mut changed = true;
    while changed {
        changed = false;
        for v in 0..n {
            for &d in &deps[v] {
                if reached[v] && !targeted[d] && !reached[d] {
                    reached[d] = true;
                    changed = true;
                }
                if !needs_patch[v] && (targeted[d] || needs_patch[d]) {
                    needs_patch[v] = true;
                    changed = true;
                }
            }
        }
    }
    let mut cyclic = false;
    for v in 0..n {
        if !reached[v] {
            continue;
        }
        let mut below = vec![false; n];
        let mut grew = true;
        let mut first = true;
        while grew {
            grew = false;
            for u in 0..n {
                if (first && u == v) || below[u] {
                    for &d in &deps[u] {
                        if !targeted[d] && !below[d] {
                            below[d] = true;
                            grew = true;
                        }
                    }
                }
            }
            first = false;
        }
        if below[v] {
            cyclic = true;
        }
    }
    Expected { reached, needs_patch, cyclic }
}

fn check_plan(names: &[&str], deps: &[Vec<usize>], targeted: &[bool]) {
    let n = names.len();
    let mut edges = Vec::new();
    for (from, list) in deps.iter().enumerate() {
        for &to in list {
            edges.push((from, to));
        }
    }
    let g = graph(names, &edges);
    let mut r = RuleSet::new();
    for v in 0..n {
        if targeted[v] {
            r.insert(names[v].to_string(), format!("https://x/{}", names[v]));
        }
    }
    let want = expected(deps, targeted, 0);
    let plan = run(&g, 0, &r, "wd");
    assert_eq!(plan.cycle.is_some(), want.cyclic, "{:?} {:?}", deps, targeted);
    let mut copied = vec![false; n];
    for (at, action) in plan.actions.iter().enumerate() {
        let (subject, substitutions) = match action {
            Action::Materialize { package, directory, substitutions } => {
                assert_ne!(*package, 0);
                assert!(!copied[*package]);
                copied[*package] = true;
                assert_eq!(directory, &format!("wd/{}", names[*package]));
                (*package, substitutions)
            }
            Action::RewriteRoot { substitutions } => {
                assert_eq!(at, plan.actions.len() - 1);
                assert!(plan.cycle.is_none());
                (0, substitutions)
            }
        };
        assert!(want.reached[subject] && want.needs_patch[subject]);
        let mut induced = Substitutions::new();
        for &d in &deps[subject] {
            if targeted[d] {
                induced.insert(names[d].to_string(), remote(&format!("https://x/{}", names[d])));
            } else if want.needs_patch[d] {
                assert!(copied[d], "{} is copied before {}", names[d], names[subject]);
                induced.insert(names[d].to_string(), local(&format!("wd/{}", names[d])));
            }
        }
        assert_eq!(substitutions, &induced, "{:?} {:?}", deps, targeted);
    }
    if plan.cycle.is_none() {
        for v in 1..n {
            assert_eq!(copied[v], want.reached[v] && want.needs_patch[v], "{:?} {:?}", deps, targeted);
        }
        let rewrites = matches!(plan.actions.last(), Some(Action::RewriteRoot { .. }));
        assert_eq!(rewrites, want.needs_patch[0], "{:?} {:?}", deps, targeted);
    }
}

fn check_all_graphs(names: &[&str], loops: bool) {
    let n = names.len();
    let mut pairs = Vec::new();
    for from in 0..n {
        for to in 0..n {
            if loops || from != to {
                pairs.push((from, to));
            }
        }
    }
    for mask in 0u32..(1 << pairs.len()) {
        let mut deps = vec![Vec::new(); n];
        for (bit, (from, to)) in pairs.iter().enumerate() {
            if mask & (1 << bit) != 0 {
                deps[*from].push(*to);
            }
        }
        for chosen in 0u32..(1 << n) {
            let targeted: Vec<bool> = (0..n).map(|v| chosen & (1 << v) != 0).collect();
            check_plan(names, &deps, &targeted);
        }
    }
}

#[test]
fn every_graph_of_three_packages_is_planned_as_expected() {
    check_all_graphs(&["A", "B", "C"], true);
}

#[test]
fn every_graph_of_four_packages_without_self_dependencies_is_planned_as_expected() {
    check_all_graphs(&["A", "B", "C", "D"], false);
}
