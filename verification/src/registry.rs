//! The grammar registry: which languages are known, under which identifier,
//! and which files belong to each.
//!
//! A registry is an ordered table. The order in which the rules were registered
//! is the order of precedence: where several languages claim one file, the one
//! registered first comes first.

use crate::grammar::grammar_tables;
use crate::text::{
    bytes_eq, ends_with_extension, file_name, find_file_name, has_extension, str_eq,
};
use vstd::prelude::*;
use vstd::slice::slice_subrange;
use vstd::string::*;
use vstd::utf8::*;

verus! {

/// One language: its identifier, its grammar, and the files that belong to it,
/// by extension (written without the dot) and by whole file name.
pub struct GrammarRule {
    pub identifier: String,
    pub grammar: tree_sitter::Language,
    pub extensions: Vec<String>,
    pub filenames: Vec<String>,
}

/// The model of a `GrammarRule`. The grammar is modelled by its tables.
pub struct RuleView {
    pub identifier: Seq<char>,
    pub grammar: Seq<u8>,
    pub extensions: Seq<Seq<char>>,
    pub filenames: Seq<Seq<char>>,
}

impl View for GrammarRule {
    type V = RuleView;

    open spec fn view(&self) -> RuleView {
        RuleView {
            identifier: self.identifier@,
            grammar: grammar_tables(self.grammar),
            extensions: self.extensions.deep_view(),
            filenames: self.filenames.deep_view(),
        }
    }
}

impl DeepView for GrammarRule {
    type V = RuleView;

    open spec fn deep_view(&self) -> RuleView {
        self@
    }
}

/// One of `filenames` is exactly the file name `name`.
pub open spec fn names_file(filenames: Seq<Seq<char>>, name: Seq<u8>) -> bool {
    exists|i: int| 0 <= i < filenames.len() && encode_utf8(#[trigger] filenames[i]) == name
}

/// The file name `name` ends with a dot and one of `extensions`.
pub open spec fn names_extension(extensions: Seq<Seq<char>>, name: Seq<u8>) -> bool {
    exists|i: int|
        0 <= i < extensions.len() && has_extension(name, encode_utf8(#[trigger] extensions[i]))
}

/// The rule claims the file at `path`: the path's last component is one of the
/// rule's file names, or ends with a dot and one of its extensions.
pub open spec fn claims(rule: RuleView, path: Seq<char>) -> bool {
    let name = file_name(encode_utf8(path));
    names_file(rule.filenames, name) || names_extension(rule.extensions, name)
}

/// The identifiers of the rules that claim `path`, in the order of the rules.
pub open spec fn claiming(rules: Seq<RuleView>, path: Seq<char>) -> Seq<Seq<char>>
    decreases rules.len(),
{
    if rules.len() == 0 {
        Seq::empty()
    } else if claims(rules.last(), path) {
        claiming(rules.drop_last(), path).push(rules.last().identifier)
    } else {
        claiming(rules.drop_last(), path)
    }
}

/// The identifiers of all the rules, in order.
pub open spec fn identifiers_of(rules: Seq<RuleView>) -> Seq<Seq<char>> {
    Seq::new(rules.len(), |i: int| rules[i].identifier)
}

/// The index of the first rule called `identifier`, where there is one.
pub open spec fn resolved(rules: Seq<RuleView>, identifier: Seq<char>) -> Option<int>
    decreases rules.len(),
{
    if rules.len() == 0 {
        None
    } else if resolved(rules.drop_last(), identifier) is Some {
        resolved(rules.drop_last(), identifier)
    } else if rules.last().identifier == identifier {
        Some(rules.len() - 1)
    } else {
        None
    }
}

/// No two rules have the same identifier.
pub open spec fn distinct_identifiers(rules: Seq<RuleView>) -> bool {
    forall|i: int, j: int|
        0 <= i < j < rules.len() ==> (#[trigger] rules[i]).identifier != (
        #[trigger] rules[j]).identifier
}

/// What `resolved` finds is a rule of that name, and it finds one wherever
/// there is one.
pub proof fn lemma_resolved(rules: Seq<RuleView>, identifier: Seq<char>)
    ensures
        resolved(rules, identifier) matches Some(i) ==> 0 <= i < rules.len()
            && rules[i].identifier == identifier && forall|k: int|
            0 <= k < i ==> (#[trigger] rules[k]).identifier != identifier,
        resolved(rules, identifier) is None ==> forall|k: int|
            0 <= k < rules.len() ==> (#[trigger] rules[k]).identifier != identifier,
    decreases rules.len(),
{
    if rules.len() > 0 {
        let front = rules.drop_last();
        lemma_resolved(front, identifier);
        assert forall|k: int| 0 <= k < front.len() implies front[k] == rules[k] by {}
        if resolved(front, identifier) is None {
            assert forall|k: int| 0 <= k < rules.len() - 1 implies (#[trigger] rules[k]).identifier
                != identifier by {
                assert(front[k] == rules[k]);
            }
        } else {
            let i = resolved(front, identifier)->0;
            assert(front[i] == rules[i]);
            assert forall|k: int| 0 <= k < i implies (#[trigger] rules[k]).identifier
                != identifier by {
                assert(front[k] == rules[k]);
            }
        }
    }
}

/// Where no two rules have the same identifier, no identifier comes twice in
/// the list of identifiers.
pub proof fn lemma_identifiers_distinct(rules: Seq<RuleView>)
    requires
        distinct_identifiers(rules),
    ensures
        identifiers_of(rules).no_duplicates(),
{
    let names = identifiers_of(rules);
    assert forall|i: int, j: int| 0 <= i < names.len() && 0 <= j < names.len() && i != j implies names[i]
        != names[j] by {
        if i < j {
            assert(rules[i].identifier != rules[j].identifier);
        } else {
            assert(rules[j].identifier != rules[i].identifier);
        }
    }
}

impl GrammarRule {
    /// The rule for the language `identifier`, parsed by `grammar`, that claims
    /// the files with one of `extensions` or called one of `filenames`.
    pub fn new(
        identifier: String,
        grammar: tree_sitter::Language,
        extensions: Vec<String>,
        filenames: Vec<String>,
    ) -> (rule: GrammarRule)
        ensures
            rule@ == (RuleView {
                identifier: identifier@,
                grammar: grammar_tables(grammar),
                extensions: extensions.deep_view(),
                filenames: filenames.deep_view(),
            }),
    {
        GrammarRule { identifier, grammar, extensions, filenames }
    }

    /// Whether this rule claims the file at `path`.
    pub fn claims(&self, path: &str) -> (r: bool)
        ensures
            r == claims(self@, path@),
    {
        let bytes = path.as_bytes();
        let start = find_file_name(bytes);
        let name = slice_subrange(bytes, start, bytes.len());
        let ghost wanted = file_name(encode_utf8(path@));
        assert(name@ == wanted);
        let mut i: usize = 0;
        while i < self.filenames.len()
            invariant
                i <= self.filenames.len(),
                name@ == wanted,
                wanted == file_name(encode_utf8(path@)),
                forall|k: int|
                    0 <= k < i ==> encode_utf8(#[trigger] self@.filenames[k]) != wanted,
            decreases self.filenames.len() - i,
        {
            assert(self@.filenames[i as int] == self.filenames[i as int]@);
            if bytes_eq(name, self.filenames[i].as_str().as_bytes()) {
                assert(names_file(self@.filenames, wanted));
                return true;
            }
            i += 1;
        }
        assert(!names_file(self@.filenames, wanted));
        let mut j: usize = 0;
        while j < self.extensions.len()
            invariant
                j <= self.extensions.len(),
                name@ == wanted,
                wanted == file_name(encode_utf8(path@)),
                !names_file(self@.filenames, wanted),
                forall|k: int|
                    0 <= k < j ==> !has_extension(
                        wanted,
                        encode_utf8(#[trigger] self@.extensions[k]),
                    ),
            decreases self.extensions.len() - j,
        {
            assert(self@.extensions[j as int] == self.extensions[j as int]@);
            if ends_with_extension(name, self.extensions[j].as_str().as_bytes()) {
                assert(names_extension(self@.extensions, wanted));
                return true;
            }
            j += 1;
        }
        assert(!names_extension(self@.extensions, wanted));
        false
    }
}

/// The table of known languages, in their order of precedence. No two rules
/// of a registry have the same identifier.
pub struct GrammarRegistry {
    rules: Vec<GrammarRule>,
}

impl View for GrammarRegistry {
    type V = Seq<RuleView>;

    closed spec fn view(&self) -> Seq<RuleView> {
        self.rules.deep_view()
    }
}

impl GrammarRegistry {
    #[verifier::type_invariant]
    spec fn distinct(&self) -> bool {
        distinct_identifiers(self.rules.deep_view())
    }

    /// The registry without rules.
    pub fn new() -> (registry: GrammarRegistry)
        ensures
            registry@ == Seq::<RuleView>::empty(),
    {
        let registry = GrammarRegistry { rules: Vec::new() };
        assert(registry.rules.deep_view() =~= Seq::<RuleView>::empty());
        registry
    }

    /// The number of rules.
    pub fn len(&self) -> (n: usize)
        ensures
            n == self@.len(),
            distinct_identifiers(self@),
    {
        proof {
            use_type_invariant(self);
        }
        self.rules.len()
    }

    /// The rule at `index`, where there is one.
    pub fn rule(&self, index: usize) -> (rule: Option<&GrammarRule>)
        ensures
            index < self@.len() ==> rule is Some && rule->0@ == self@[index as int],
            index >= self@.len() ==> rule is None,
    {
        if index < self.rules.len() {
            Some(&self.rules[index])
        } else {
            None
        }
    }

    /// Looks a language up by its identifier: the index of its rule, or `None`
    /// where the registry knows no such language.
    pub fn resolve(&self, identifier: &str) -> (found: Option<usize>)
        ensures
            found is Some <==> exists|i: int|
                0 <= i < self@.len() && (#[trigger] self@[i]).identifier == identifier@,
            found matches Some(i) ==> i < self@.len() && self@[i as int].identifier
                == identifier@,
            found is Some == resolved(self@, identifier@) is Some,
            found matches Some(i) ==> resolved(self@, identifier@) == Some(i as int),
    {
        let mut i: usize = 0;
        while i < self.rules.len()
            invariant
                i <= self.rules.len(),
                forall|k: int|
                    0 <= k < i ==> (#[trigger] self.rules.deep_view()[k]).identifier
                        != identifier@,
            decreases self.rules.len() - i,
        {
            assert(self.rules.deep_view()[i as int] == self.rules[i as int]@);
            if str_eq(self.rules[i].identifier.as_str(), identifier) {
                proof {
                    lemma_resolved(self@, identifier@);
                }
                return Some(i);
            }
            i += 1;
        }
        proof {
            lemma_resolved(self@, identifier@);
        }
        None
    }

    /// Adds `rule` after the rules that are there, unless a rule of the same
    /// identifier is registered already; says whether it was added.
    pub fn register(&mut self, rule: GrammarRule) -> (added: bool)
        ensures
            added == (resolved(old(self)@, rule@.identifier) is None),
            added ==> final(self)@ == old(self)@.push(rule@),
            !added ==> final(self)@ == old(self)@,
            distinct_identifiers(final(self)@),
    {
        proof {
            use_type_invariant(&*self);
        }
        if self.resolve(rule.identifier.as_str()).is_some() {
            return false;
        }
        let ghost before = self.rules.deep_view();
        let mut taken = GrammarRegistry::new();
        core::mem::swap(self, &mut taken);
        let mut rules = taken.rules;
        rules.push(rule);
        proof {
            let after = rules.deep_view();
            assert(after =~= before.push(rule@));
            lemma_resolved(before, rule@.identifier);
            assert forall|i: int, j: int| 0 <= i < j < after.len() implies (#[trigger] after[i]).identifier
                != (#[trigger] after[j]).identifier by {
                assert(after[i] == before[i]);
                if j < before.len() {
                    assert(after[j] == before[j]);
                }
            }
        }
        *self = GrammarRegistry { rules };
        true
    }

    /// The identifiers of all known languages, in registry order.
    pub fn identifiers(&self) -> (names: Vec<String>)
        ensures
            names.deep_view() == identifiers_of(self@),
            distinct_identifiers(self@),
            identifiers_of(self@).no_duplicates(),
    {
        proof {
            use_type_invariant(self);
            lemma_identifiers_distinct(self@);
        }
        let mut names: Vec<String> = Vec::new();
        let mut i: usize = 0;
        while i < self.rules.len()
            invariant
                i <= self.rules.len(),
                names.len() == i,
                forall|k: int|
                    0 <= k < i ==> (#[trigger] names[k])@ == self.rules[k].identifier@,
            decreases self.rules.len() - i,
        {
            names.push(self.rules[i].identifier.clone());
            i += 1;
        }
        assert(names.deep_view() =~= identifiers_of(self@));
        names
    }

    /// The identifiers of the languages that claim the file at `path`, in
    /// registry order: the first is the one that takes precedence.
    pub fn identifiers_for(&self, path: &str) -> (names: Vec<String>)
        ensures
            names.deep_view() == claiming(self@, path@),
    {
        let mut names: Vec<String> = Vec::new();
        let mut i: usize = 0;
        assert(self@.subrange(0, 0) =~= Seq::<RuleView>::empty());
        assert(names.deep_view() =~= Seq::<Seq<char>>::empty());
        while i < self.rules.len()
            invariant
                i <= self.rules.len(),
                names.deep_view() == claiming(self@.subrange(0, i as int), path@),
            decreases self.rules.len() - i,
        {
            let ghost before = names.deep_view();
            let ghost upto = self@.subrange(0, i + 1);
            assert(upto.drop_last() =~= self@.subrange(0, i as int));
            assert(upto.last() == self.rules[i as int]@);
            if self.rules[i].claims(path) {
                names.push(self.rules[i].identifier.clone());
                assert(names.deep_view() =~= before.push(self.rules[i as int].identifier@));
            }
            i += 1;
        }
        assert(self@.subrange(0, i as int) =~= self@);
        names
    }
}

} // verus!
