use vstd::prelude::*;
use vstd::string::*;
use crate::assoc::{
    distinct_keys, entries_map, has_key, lemma_entries_map_keys, lemma_entries_map_value,
};
use crate::source::{Replacement, Source, Substitutions};
use crate::toml_tree::{
    content, empty_table, is_table, is_text, parse_document, parsed, print_document, printed,
    put_entry, take_entry, text_value, Tree,
};

verus! {

/// Why a manifest could not be rewritten.
#[derive(Debug)]
pub enum RewriteError {
    /// The text is no TOML document.
    Syntax(toml::de::Error),
    /// The dependency of this name is neither a string nor a table.
    Shape(String),
    /// The rewritten document cannot be written as TOML.
    Print(toml::ser::Error),
}

/// The key under which a dependency entry names its replacement source.
pub open spec fn source_key(source: Source) -> Seq<char> {
    match source {
        Source::Remote(_) => "git"@,
        Source::Local(_) => "path"@,
    }
}

/// The URL or path that a dependency entry gives for its replacement
/// source.
pub open spec fn source_text(source: Source) -> Seq<char> {
    match source {
        Source::Remote(url) => url,
        Source::Local(path) => path,
    }
}

/// The fields of a dependency entry without those that say where the
/// dependency comes from.
pub open spec fn without_origin(fields: Map<Seq<char>, Tree>) -> Map<Seq<char>, Tree> {
    fields.remove("version"@).remove("path"@).remove("git"@)
}

/// A dependency entry redirected to a replacement source: a table with the
/// entry's fields other than `version`, `path` and `git`, and with the
/// source under `path` or `git`. A bare version string has no other
/// fields. An entry that is neither a string nor a table stays as it is.
pub open spec fn normalized(entry: Tree, source: Source) -> Tree {
    match entry {
        Tree::Text(_) => Tree::Table(
            Map::<Seq<char>, Tree>::empty().insert(
                source_key(source),
                Tree::Text(source_text(source)),
            ),
        ),
        Tree::Table(fields) => Tree::Table(
            without_origin(fields).insert(source_key(source), Tree::Text(source_text(source))),
        ),
        Tree::Other(_) => entry,
    }
}

/// A dependency table with each entry that has a substitution redirected.
/// A value that is no table stays as it is.
pub open spec fn rewritten_section(section: Tree, subs: Map<Seq<char>, Source>) -> Tree {
    match section {
        Tree::Table(deps) => Tree::Table(
            Map::new(
                |name: Seq<char>| deps.contains_key(name),
                |name: Seq<char>|
                    if subs.contains_key(name) {
                        normalized(deps[name], subs[name])
                    } else {
                        deps[name]
                    },
            ),
        ),
        _ => section,
    }
}

/// The three top-level tables that declare dependencies.
pub open spec fn is_dependency_table(key: Seq<char>) -> bool {
    key == "dependencies"@ || key == "dev-dependencies"@ || key == "build-dependencies"@
}

/// A manifest with the substitutions applied under its three dependency
/// tables. Everything else stays as it is.
pub open spec fn rewritten(doc: Tree, subs: Map<Seq<char>, Source>) -> Tree {
    match doc {
        Tree::Table(top) => Tree::Table(
            Map::new(
                |key: Seq<char>| top.contains_key(key),
                |key: Seq<char>|
                    if is_dependency_table(key) {
                        rewritten_section(top[key], subs)
                    } else {
                        top[key]
                    },
            ),
        ),
        _ => doc,
    }
}

/// The dependency table has an entry for `name` that is to be redirected
/// and is neither a string nor a table.
pub open spec fn malformed_in(section: Tree, subs: Map<Seq<char>, Source>, name: Seq<char>) -> bool {
    &&& section matches Tree::Table(deps)
    &&& deps.contains_key(name)
    &&& subs.contains_key(name)
    &&& deps[name] is Other
}

/// The manifest has, under the table `table`, an entry for `name` that is
/// to be redirected and is neither a string nor a table.
pub open spec fn malformed_at(
    doc: Tree,
    subs: Map<Seq<char>, Source>,
    table: Seq<char>,
    name: Seq<char>,
) -> bool {
    &&& doc matches Tree::Table(top)
    &&& top.contains_key(table)
    &&& malformed_in(top[table], subs, name)
}

/// The manifest has, under one of its dependency tables, an entry for
/// `name` that is to be redirected and is neither a string nor a table.
pub open spec fn malformed(doc: Tree, subs: Map<Seq<char>, Source>, name: Seq<char>) -> bool {
    exists|table: Seq<char>| is_dependency_table(table) && #[trigger] malformed_at(doc, subs, table, name)
}

/// A dependency of the manifest cannot be redirected.
pub open spec fn any_malformed(doc: Tree, subs: Map<Seq<char>, Source>) -> bool {
    exists|name: Seq<char>| #[trigger] malformed(doc, subs, name)
}

/// The `k`-th substitution of the list is the first whose entry in the
/// dependency table cannot be redirected.
pub open spec fn first_malformed_in(
    section: Tree,
    pairs: Seq<(Seq<char>, Source)>,
    k: int,
) -> bool {
    &&& 0 <= k < pairs.len()
    &&& malformed_in(section, entries_map(pairs), pairs[k].0)
    &&& forall|j: int|
        0 <= j < k ==> !malformed_in(section, entries_map(pairs), #[trigger] pairs[j].0)
}

/// The name that is reported for a dependency table: that of the first
/// substitution of the list whose entry cannot be redirected, if there is
/// one.
pub open spec fn blamed_in(section: Tree, pairs: Seq<(Seq<char>, Source)>) -> Option<Seq<char>> {
    if exists|k: int| first_malformed_in(section, pairs, k) {
        Some(pairs[choose|k: int| first_malformed_in(section, pairs, k)].0)
    } else {
        None
    }
}

/// The value under the top-level key `table` of a manifest; where there is
/// none, an empty table.
pub open spec fn section_at(doc: Tree, table: Seq<char>) -> Tree {
    match doc {
        Tree::Table(top) => if top.contains_key(table) {
            top[table]
        } else {
            Tree::Table(Map::empty())
        },
        _ => Tree::Table(Map::empty()),
    }
}

/// The name that is reported for a manifest: the one reported for the first
/// of `dependencies`, `dev-dependencies` and `build-dependencies` for which
/// one is reported.
pub open spec fn blamed(doc: Tree, pairs: Seq<(Seq<char>, Source)>) -> Option<Seq<char>> {
    if blamed_in(section_at(doc, "dependencies"@), pairs) is Some {
        blamed_in(section_at(doc, "dependencies"@), pairs)
    } else if blamed_in(section_at(doc, "dev-dependencies"@), pairs) is Some {
        blamed_in(section_at(doc, "dev-dependencies"@), pairs)
    } else {
        blamed_in(section_at(doc, "build-dependencies"@), pairs)
    }
}

/// Redirects one dependency entry to a replacement source. A bare version
/// string becomes a table; a table loses `version`, `path` and `git`; then
/// `path` or `git` is set. An entry of any other shape is handed back.
pub fn normalize(entry: toml::Value, replacement: &Replacement) -> (done: Result<
    toml::Value,
    toml::Value,
>)
    ensures
        match done {
            Ok(table) => !(content(entry) is Other) && content(table) == normalized(
                content(entry),
                replacement@,
            ),
            Err(same) => content(entry) is Other && same == entry,
        },
{
    let mut table = if is_text(&entry) {
        empty_table()
    } else if is_table(&entry) {
        entry
    } else {
        return Err(entry);
    };
    let ghost fields = match content(entry) {
        Tree::Table(fields) => fields,
        _ => Map::<Seq<char>, Tree>::empty(),
    };
    assert(content(table) == Tree::Table(fields));
    let _ = take_entry(&mut table, "version");
    assert(content(table) == Tree::Table(fields.remove("version"@))) by {
        assert(fields.contains_key("version"@) || fields.remove("version"@) =~= fields);
    }
    let _ = take_entry(&mut table, "path");
    assert(content(table) == Tree::Table(fields.remove("version"@).remove("path"@))) by {
        let f = fields.remove("version"@);
        assert(f.contains_key("path"@) || f.remove("path"@) =~= f);
    }
    let _ = take_entry(&mut table, "git");
    assert(content(table) == Tree::Table(without_origin(fields))) by {
        let f = fields.remove("version"@).remove("path"@);
        assert(f.contains_key("git"@) || f.remove("git"@) =~= f);
    }
    match replacement {
        Replacement::Local(path) => {
            put_entry(&mut table, String::from_str("path"), text_value(path.clone()));
        },
        Replacement::Remote(url) => {
            put_entry(&mut table, String::from_str("git"), text_value(url.clone()));
        },
    }
    assert(without_origin(Map::<Seq<char>, Tree>::empty()) =~= Map::<Seq<char>, Tree>::empty());
    Ok(table)
}

/// A dependency table after the first `count` substitutions of a list
/// have been applied to it.
pub open spec fn partly_rewritten(
    section: Tree,
    pairs: Seq<(Seq<char>, Source)>,
    count: int,
) -> Tree {
    match section {
        Tree::Table(deps) => Tree::Table(
            Map::new(
                |name: Seq<char>| deps.contains_key(name),
                |name: Seq<char>|
                    if has_key(pairs.subrange(0, count), name) {
                        normalized(deps[name], entries_map(pairs)[name])
                    } else {
                        deps[name]
                    },
            ),
        ),
        _ => section,
    }
}

proof fn lemma_has_key_prefix(pairs: Seq<(Seq<char>, Source)>, count: int, name: Seq<char>)
    requires
        0 <= count < pairs.len(),
        distinct_keys(pairs),
    ensures
        has_key(pairs.subrange(0, count + 1), name) <==> has_key(pairs.subrange(0, count), name)
            || name == pairs[count].0,
        !has_key(pairs.subrange(0, count), pairs[count].0),
{
    let short = pairs.subrange(0, count);
    let long = pairs.subrange(0, count + 1);
    if has_key(short, name) {
        let i = choose|i: int| 0 <= i < short.len() && #[trigger] short[i].0 == name;
        assert(long[i].0 == name);
    }
    if name == pairs[count].0 {
        assert(long[count].0 == name);
    }
    if has_key(long, name) {
        let i = choose|i: int| 0 <= i < long.len() && #[trigger] long[i].0 == name;
        if i < count {
            assert(short[i].0 == name);
        }
    }
    if has_key(short, pairs[count].0) {
        let i = choose|i: int| 0 <= i < short.len() && #[trigger] short[i].0 == pairs[count].0;
        assert(short[i] == pairs[i]);
    }
}

/// Applies the substitutions, in their order, to the entries of one
/// dependency table. A value that is no table is handed back as it is.
/// Fails with the name of the first substitution whose entry is neither a
/// string nor a table.
pub fn rewrite_section(section: toml::Value, subs: &Substitutions) -> (done: Result<
    toml::Value,
    String,
>)
    requires
        subs.wf(),
    ensures
        match done {
            Ok(table) => content(table) == rewritten_section(content(section), subs@)
                && blamed_in(content(section), subs.pairs()) is None && forall|name: Seq<char>|
                !malformed_in(content(section), subs@, name),
            Err(name) => blamed_in(content(section), subs.pairs()) == Some(name@) && malformed_in(
                content(section),
                subs@,
                name@,
            ),
        },
{
    let ghost pairs = subs.pairs();
    let ghost start = content(section);
    let mut table = section;
    let mut i: usize = 0;
    assert(partly_rewritten(start, pairs, 0) == start) by {
        if let Tree::Table(deps) = start {
            assert(pairs.subrange(0, 0) =~= Seq::empty());
            assert(partly_rewritten(start, pairs, 0)->Table_0 =~= deps);
        }
    }
    while i < subs.entries.len()
        invariant
            subs.wf(),
            pairs == subs.pairs(),
            start == content(section),
            i <= subs.entries@.len(),
            content(table) == partly_rewritten(start, pairs, i as int),
            forall|k: int| 0 <= k < i ==> !malformed_in(start, subs@, #[trigger] pairs[k].0),
        decreases subs.entries@.len() - i,
    {
        let name = subs.entries[i].0.as_str();
        let replacement = &subs.entries[i].1;
        proof {
            lemma_has_key_prefix(pairs, i as int, name@);
            lemma_entries_map_value(pairs, i as int);
            assert(pairs[i as int] == (name@, replacement@));
        }
        let ghost current = content(table);
        match take_entry(&mut table, name) {
            Some(entry) => {
                let ghost deps = start->Table_0;
                let ghost fields = current->Table_0;
                assert(content(entry) == deps[name@]);
                match normalize(entry, replacement) {
                    Ok(redirected) => {
                        put_entry(&mut table, String::from_str(name), redirected);
                        proof {
                            let next = partly_rewritten(start, pairs, i + 1)->Table_0;
                            let now = fields.remove(name@).insert(name@, content(redirected));
                            assert forall|n: Seq<char>| now.contains_key(n) implies now[n]
                                == next[n] by {
                                lemma_has_key_prefix(pairs, i as int, n);
                            }
                            assert(now =~= next);
                        }
                    },
                    Err(_) => {
                        assert(first_malformed_in(start, pairs, i as int));
                        return Err(String::from_str(name));
                    },
                }
            },
            None => {
                proof {
                    if let Tree::Table(deps) = start {
                        let next = partly_rewritten(start, pairs, i + 1)->Table_0;
                        let fields = current->Table_0;
                        assert forall|n: Seq<char>| fields.contains_key(n) implies fields[n]
                            == next[n] by {
                            lemma_has_key_prefix(pairs, i as int, n);
                        }
                        assert(fields =~= next);
                    }
                }
            },
        }
        i += 1;
    }
    proof {
        assert(pairs.subrange(0, i as int) =~= pairs);
        if let Tree::Table(deps) = start {
            let last = partly_rewritten(start, pairs, i as int)->Table_0;
            let goal = rewritten_section(start, subs@)->Table_0;
            assert forall|n: Seq<char>| last.contains_key(n) implies last[n] == goal[n] by {
                lemma_entries_map_keys(pairs, n);
            }
            assert(last =~= goal);
        }
        assert forall|name: Seq<char>| !malformed_in(start, subs@, name) by {
            lemma_entries_map_keys(pairs, name);
            if has_key(pairs, name) {
                let k = choose|k: int| 0 <= k < pairs.len() && #[trigger] pairs[k].0 == name;
                assert(!malformed_in(start, subs@, pairs[k].0));
            }
        }
    }
    Ok(table)
}

/// A manifest with the substitutions applied under one of its top-level
/// tables.
pub open spec fn rewritten_at(doc: Tree, table: Seq<char>, subs: Map<Seq<char>, Source>) -> Tree {
    match doc {
        Tree::Table(top) => if top.contains_key(table) {
            Tree::Table(top.insert(table, rewritten_section(top[table], subs)))
        } else {
            doc
        },
        _ => doc,
    }
}

/// Applies the substitutions under the top-level table `table` of a
/// manifest, if it has one.
fn rewrite_table(doc: toml::Value, table: &str, subs: &Substitutions) -> (done: Result<
    toml::Value,
    String,
>)
    requires
        subs.wf(),
    ensures
        match done {
            Ok(after) => content(after) == rewritten_at(content(doc), table@, subs@) && blamed_in(
                section_at(content(doc), table@),
                subs.pairs(),
            ) is None && forall|name: Seq<char>| !malformed_at(content(doc), subs@, table@, name),
            Err(name) => blamed_in(section_at(content(doc), table@), subs.pairs()) == Some(name@)
                && malformed_at(content(doc), subs@, table@, name@),
        },
{
    let mut doc = doc;
    let ghost start = content(doc);
    match take_entry(&mut doc, table) {
        Some(section) => {
            match rewrite_section(section, subs) {
                Ok(after) => {
                    put_entry(&mut doc, String::from_str(table), after);
                    proof {
                        let top = start->Table_0;
                        assert(top.remove(table@).insert(table@, content(after)) =~= top.insert(
                            table@,
                            content(after),
                        ));
                    }
                    Ok(doc)
                },
                Err(name) => Err(name),
            }
        },
        None => Ok(doc),
    }
}

/// The names of the three dependency tables differ.
pub proof fn lemma_table_names()
    ensures
        "dependencies"@ != "dev-dependencies"@,
        "dependencies"@ != "build-dependencies"@,
        "dev-dependencies"@ != "build-dependencies"@,
        is_dependency_table("dependencies"@),
        is_dependency_table("dev-dependencies"@),
        is_dependency_table("build-dependencies"@),
{
    reveal_strlit("dependencies");
    reveal_strlit("dev-dependencies");
    reveal_strlit("build-dependencies");
    assert("dependencies"@.len() == 12);
    assert("dev-dependencies"@.len() == 16);
    assert("build-dependencies"@.len() == 18);
}

/// The names of the fields that say where a dependency comes from differ.
pub proof fn lemma_field_names()
    ensures
        "version"@ != "path"@,
        "version"@ != "git"@,
        "path"@ != "git"@,
{
    reveal_strlit("version");
    reveal_strlit("path");
    reveal_strlit("git");
    assert("version"@.len() == 7);
    assert("path"@.len() == 4);
    assert("git"@.len() == 3);
}

/// Applying the substitutions under the three dependency tables in turn
/// rewrites the manifest.
proof fn lemma_rewritten_in_turn(doc: Tree, subs: Map<Seq<char>, Source>)
    ensures
        rewritten_at(
            rewritten_at(rewritten_at(doc, "dependencies"@, subs), "dev-dependencies"@, subs),
            "build-dependencies"@,
            subs,
        ) == rewritten(doc, subs),
{
    lemma_table_names();
    if let Tree::Table(top) = doc {
        let first = rewritten_at(doc, "dependencies"@, subs);
        let second = rewritten_at(first, "dev-dependencies"@, subs);
        let third = rewritten_at(second, "build-dependencies"@, subs);
        let goal = rewritten(doc, subs)->Table_0;
        assert(third->Table_0 =~= goal);
    }
}

/// Applies the substitutions to a manifest: under each of the tables
/// `dependencies`, `dev-dependencies` and `build-dependencies` that it has,
/// each entry whose name has a substitution is redirected. Fails with the
/// name of the first entry, by table and then by substitution, that is to
/// be redirected and is neither a string nor a table.
pub fn rewrite_document(doc: toml::Value, subs: &Substitutions) -> (done: Result<
    toml::Value,
    String,
>)
    requires
        subs.wf(),
    ensures
        match done {
            Ok(after) => content(after) == rewritten(content(doc), subs@) && blamed(
                content(doc),
                subs.pairs(),
            ) is None && !any_malformed(content(doc), subs@),
            Err(name) => blamed(content(doc), subs.pairs()) == Some(name@) && malformed(
                content(doc),
                subs@,
                name@,
            ),
        },
{
    let ghost start = content(doc);
    proof {
        lemma_table_names();
        lemma_rewritten_in_turn(start, subs@);
    }
    let first = match rewrite_table(doc, "dependencies", subs) {
        Ok(after) => after,
        Err(name) => {
            assert(malformed_at(start, subs@, "dependencies"@, name@));
            return Err(name);
        },
    };
    let second = match rewrite_table(first, "dev-dependencies", subs) {
        Ok(after) => after,
        Err(name) => {
            assert(malformed_at(start, subs@, "dev-dependencies"@, name@));
            return Err(name);
        },
    };
    let third = match rewrite_table(second, "build-dependencies", subs) {
        Ok(after) => after,
        Err(name) => {
            assert(malformed_at(start, subs@, "build-dependencies"@, name@));
            return Err(name);
        },
    };
    proof {
        assert forall|name: Seq<char>| !malformed(start, subs@, name) by {
            assert forall|table: Seq<char>| is_dependency_table(table) implies !malformed_at(
                start,
                subs@,
                table,
                name,
            ) by {
                if table == "dependencies"@ {
                } else if table == "dev-dependencies"@ {
                    assert(!malformed_at(content(first), subs@, table, name));
                } else {
                    assert(!malformed_at(content(second), subs@, table, name));
                }
            }
        }
    }
    Ok(third)
}

/// What rewriting a manifest text gives: the text of the rewritten
/// document, or the failure.
pub ghost enum Outcome {
    /// The text of the rewritten manifest.
    Written(Seq<char>),
    /// The text is no TOML document.
    Syntax,
    /// The dependency of this name is neither a string nor a table.
    Shape(Seq<char>),
    /// The rewritten document cannot be written as TOML.
    Print,
}

/// The outcome of rewriting a manifest text with a list of substitutions:
/// the text is read as a TOML document, the substitutions are applied to
/// it, and the document is written again.
pub open spec fn rewritten_text(text: Seq<char>, pairs: Seq<(Seq<char>, Source)>) -> Outcome {
    match parsed(text) {
        None => Outcome::Syntax,
        Some(doc) => match blamed(doc, pairs) {
            Some(name) => Outcome::Shape(name),
            None => match printed(rewritten(doc, entries_map(pairs))) {
                Some(out) => Outcome::Written(out),
                None => Outcome::Print,
            },
        },
    }
}

/// Rewrites the text of a manifest: reads it as a TOML document, redirects
/// the dependencies that have a substitution, and writes the document
/// again.
pub fn rewrite_manifest(text: &str, subs: &Substitutions) -> (done: Result<String, RewriteError>)
    requires
        subs.wf(),
    ensures
        match done {
            Ok(out) => rewritten_text(text@, subs.pairs()) == Outcome::Written(out@),
            Err(RewriteError::Syntax(_)) => rewritten_text(text@, subs.pairs()) == Outcome::Syntax,
            Err(RewriteError::Shape(name)) => rewritten_text(text@, subs.pairs()) == Outcome::Shape(
                name@,
            ),
            Err(RewriteError::Print(_)) => rewritten_text(text@, subs.pairs()) == Outcome::Print,
        },
{
    let doc = match parse_document(text) {
        Ok(doc) => doc,
        Err(error) => {
            return Err(RewriteError::Syntax(error));
        },
    };
    let after = match rewrite_document(doc, subs) {
        Ok(after) => after,
        Err(name) => {
            return Err(RewriteError::Shape(name));
        },
    };
    match print_document(&after) {
        Ok(out) => Ok(out),
        Err(error) => Err(RewriteError::Print(error)),
    }
}

} // verus!
