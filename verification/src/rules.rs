use vstd::prelude::*;
use vstd::string::*;
use crate::assoc::{distinct_keys, entries_map, has_key, lemma_entries_map_keys, lemma_entries_map_push, lemma_entries_map_update, lemma_entries_map_value, position};

verus! {

/// The text has its first `=` at position `i`.
pub open spec fn first_equals_at(text: Seq<char>, i: int) -> bool {
    &&& 0 <= i < text.len()
    &&& text[i] == '='
    &&& forall|j: int| 0 <= j < i ==> text[j] != '='
}

/// The text holds an `=`.
pub open spec fn has_equals(text: Seq<char>) -> bool {
    exists|i: int| first_equals_at(text, i)
}

/// The position of the first `=` of a text that holds one.
pub open spec fn split_point(text: Seq<char>) -> int {
    choose|i: int| first_equals_at(text, i)
}

/// The package name of a rule: what stands before the first `=`.
pub open spec fn rule_name(text: Seq<char>) -> Seq<char> {
    text.subrange(0, split_point(text))
}

/// The URL of a rule: what stands after the first `=`.
pub open spec fn rule_url(text: Seq<char>) -> Seq<char> {
    text.subrange(split_point(text) + 1, text.len() as int)
}

/// Splits a rule of the form `name=url` at its first `=`. A text without
/// `=` is no rule.
pub fn parse_rule(text: &str) -> (rule: Option<(String, String)>)
    ensures
        rule is Some <==> has_equals(text@),
        rule matches Some(r) ==> r.0@ == rule_name(text@) && r.1@ == rule_url(text@),
{
    let n = text.unicode_len();
    let mut i: usize = 0;
    while i < n
        invariant
            n == text@.len(),
            i <= n,
            forall|j: int| 0 <= j < i ==> text@[j] != '=',
        decreases n - i,
    {
        if text.get_char(i) == '=' {
            assert(first_equals_at(text@, i as int));
            let name = text.substring_char(0, i);
            let url = text.substring_char(i + 1, n);
            return Some((String::from_str(name), String::from_str(url)));
        }
        i += 1;
    }
    assert(!has_equals(text@));
    None
}

/// The user's substitution rules: a URL for each package name.
#[derive(Clone, Debug, PartialEq, Eq)]
pub struct RuleSet {
    pub rules: Vec<(String, String)>,
}

impl View for RuleSet {
    type V = Map<Seq<char>, Seq<char>>;

    open spec fn view(&self) -> Map<Seq<char>, Seq<char>> {
        entries_map(self.pairs())
    }
}

/// The rules that a list of flag values gives, where each holds an `=`: a
/// later value replaces an earlier one for the same name.
pub open spec fn rules_of(values: Seq<Seq<char>>) -> Map<Seq<char>, Seq<char>>
    decreases values.len(),
{
    if values.len() == 0 {
        Map::empty()
    } else {
        rules_of(values.drop_last()).insert(rule_name(values.last()), rule_url(values.last()))
    }
}

impl RuleSet {
    /// The rules as pairs of mathematical values, in order.
    pub open spec fn pairs(&self) -> Seq<(Seq<char>, Seq<char>)> {
        self.rules@.map_values(|e: (String, String)| (e.0@, e.1@))
    }

    /// No name has two rules.
    pub open spec fn wf(&self) -> bool {
        distinct_keys(self.pairs())
    }

    /// The empty rule set.
    pub fn new() -> (rules: RuleSet)
        ensures
            rules.wf(),
            rules@ == Map::<Seq<char>, Seq<char>>::empty(),
    {
        let rules = RuleSet { rules: Vec::new() };
        assert(rules.pairs() =~= Seq::empty());
        rules
    }

    /// Sets the URL for `name`; an earlier rule for the name is replaced.
    pub fn insert(&mut self, name: String, url: String)
        requires
            old(self).wf(),
        ensures
            final(self).wf(),
            final(self)@ == old(self)@.insert(name@, url@),
    {
        let ghost before = self.pairs();
        match position(&self.rules, name.as_str()) {
            Some(i) => {
                proof {
                    lemma_entries_map_update(before, i as int, url@);
                }
                self.rules.set(i, (name, url));
                assert(self.pairs() =~= before.update(i as int, (name@, url@)));
            },
            None => {
                proof {
                    lemma_entries_map_push(before, name@, url@);
                    assert(!has_key(before, name@)) by {
                        if has_key(before, name@) {
                            let i = choose|i: int|
                                0 <= i < before.len() && #[trigger] before[i].0 == name@;
                            assert(self.rules@[i].0@ == name@);
                        }
                    }
                }
                self.rules.push((name, url));
                assert(self.pairs() =~= before.push((name@, url@)));
            },
        }
    }

    /// The URL for the package called exactly `name`, if a rule names it.
    pub fn get(&self, name: &str) -> (found: Option<&String>)
        requires
            self.wf(),
        ensures
            match found {
                Some(url) => self@.contains_key(name@) && self@[name@] == url@,
                None => !self@.contains_key(name@),
            },
    {
        proof {
            lemma_entries_map_keys(self.pairs(), name@);
        }
        match position(&self.rules, name) {
            Some(i) => {
                proof {
                    lemma_entries_map_value(self.pairs(), i as int);
                }
                Some(&self.rules[i].1)
            },
            None => {
                assert(!has_key(self.pairs(), name@)) by {
                    if has_key(self.pairs(), name@) {
                        let i = choose|i: int|
                            0 <= i < self.pairs().len() && #[trigger] self.pairs()[i].0 == name@;
                        assert(self.rules@[i].0@ == name@);
                    }
                }
                None
            },
        }
    }

    /// Builds the rule set from the values of the flag, in order. Fails with
    /// the position of the first value that holds no `=`.
    pub fn parse(values: &Vec<String>) -> (parsed: Result<RuleSet, usize>)
        ensures
            match parsed {
                Ok(rules) => rules.wf() && rules@ == rules_of(values@.map_values(|v: String| v@))
                    && forall|i: int| 0 <= i < values@.len() ==> has_equals(values@[i]@),
                Err(at) => at < values@.len() && !has_equals(values@[at as int]@) && forall|
                    i: int,
                | 0 <= i < at ==> has_equals(values@[i]@),
            },
    {
        let ghost texts = values@.map_values(|v: String| v@);
        let mut rules = RuleSet::new();
        let mut i: usize = 0;
        assert(texts.subrange(0, 0) =~= Seq::empty());
        while i < values.len()
            invariant
                i <= values@.len(),
                texts == values@.map_values(|v: String| v@),
                rules.wf(),
                rules@ == rules_of(texts.subrange(0, i as int)),
                forall|j: int| 0 <= j < i ==> has_equals(values@[j]@),
            decreases values@.len() - i,
        {
            match parse_rule(values[i].as_str()) {
                Some((name, url)) => {
                    proof {
                        let next = texts.subrange(0, i + 1);
                        assert(next.drop_last() =~= texts.subrange(0, i as int));
                        assert(next.last() == values@[i as int]@);
                    }
                    rules.insert(name, url);
                },
                None => {
                    return Err(i);
                },
            }
            i += 1;
        }
        assert(texts.subrange(0, i as int) =~= texts);
        Ok(rules)
    }
}

} // verus!
