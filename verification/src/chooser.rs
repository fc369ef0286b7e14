//! The extractor selector: which of the configured extractors, if any, takes a
//! candidate entry.
//!
//! Only regular files are taken. An explicit override of the entry's path
//! decides before anything else. Without one, the languages that claim the
//! path are asked in the registry's order of precedence, and the first that
//! has an extractor configured gets the file.

use crate::discovery::{CandidateEntry, EntryView};
use crate::extractor::Extractor;
use crate::registry::{claims, GrammarRegistry, RuleView};
use crate::text::str_eq;
use vstd::prelude::*;
use vstd::string::*;

verus! {

/// The explicit choice of a language for one path.
#[derive(Clone, Debug, PartialEq, Eq)]
pub struct LanguageOverride {
    pub path: String,
    pub language: String,
}

/// The model of a `LanguageOverride`.
pub struct OverrideView {
    pub path: Seq<char>,
    pub language: Seq<char>,
}

impl View for LanguageOverride {
    type V = OverrideView;

    open spec fn view(&self) -> OverrideView {
        OverrideView { path: self.path@, language: self.language@ }
    }
}

impl DeepView for LanguageOverride {
    type V = OverrideView;

    open spec fn deep_view(&self) -> OverrideView {
        self@
    }
}

/// The identifiers of the languages of `extractors`, in order.
pub open spec fn configured(extractors: Seq<Extractor>) -> Seq<Seq<char>> {
    Seq::new(extractors.len(), |i: int| extractors[i]@.identifier)
}

/// The index of the first of `names` that is `name`, where there is one.
pub open spec fn position_of(names: Seq<Seq<char>>, name: Seq<char>) -> Option<int>
    decreases names.len(),
{
    if names.len() == 0 {
        None
    } else if position_of(names.drop_last(), name) is Some {
        position_of(names.drop_last(), name)
    } else if names.last() == name {
        Some(names.len() - 1)
    } else {
        None
    }
}

/// The language of the first override that names `path`, where there is one.
pub open spec fn override_for(overrides: Seq<OverrideView>, path: Seq<char>) -> Option<Seq<char>>
    decreases overrides.len(),
{
    if overrides.len() == 0 {
        None
    } else if override_for(overrides.drop_last(), path) is Some {
        override_for(overrides.drop_last(), path)
    } else if overrides.last().path == path {
        Some(overrides.last().language)
    } else {
        None
    }
}

/// The place among `names` of the first rule, in the order of `rules`, that
/// claims `path` and whose language is one of `names`; `None` where no rule
/// is such.
pub open spec fn first_claim(rules: Seq<RuleView>, names: Seq<Seq<char>>, path: Seq<char>) -> Option<
    int,
>
    decreases rules.len(),
{
    if rules.len() == 0 {
        None
    } else if first_claim(rules.drop_last(), names, path) is Some {
        first_claim(rules.drop_last(), names, path)
    } else if claims(rules.last(), path) {
        position_of(names, rules.last().identifier)
    } else {
        None
    }
}

/// The extractor, by its place among those configured as `names`, that takes
/// `entry`; `None` where the entry is declined.
pub open spec fn selection(
    rules: Seq<RuleView>,
    names: Seq<Seq<char>>,
    overrides: Seq<OverrideView>,
    entry: EntryView,
) -> Option<int> {
    if !entry.is_file {
        None
    } else {
        match override_for(overrides, entry.path) {
            Some(language) => position_of(names, language),
            None => first_claim(rules, names, entry.path),
        }
    }
}

/// What is found among the first names is found among all of them.
pub proof fn lemma_position_of_prefix(names: Seq<Seq<char>>, name: Seq<char>, n: int)
    requires
        0 <= n <= names.len(),
        position_of(names.subrange(0, n), name) is Some,
    ensures
        position_of(names, name) == position_of(names.subrange(0, n), name),
    decreases names.len() - n,
{
    if n < names.len() {
        assert(names.subrange(0, n + 1).drop_last() =~= names.subrange(0, n));
        lemma_position_of_prefix(names, name, n + 1);
    } else {
        assert(names.subrange(0, n) =~= names);
    }
}

/// An override found among the first ones is the override among all.
pub proof fn lemma_override_for_prefix(overrides: Seq<OverrideView>, path: Seq<char>, n: int)
    requires
        0 <= n <= overrides.len(),
        override_for(overrides.subrange(0, n), path) is Some,
    ensures
        override_for(overrides, path) == override_for(overrides.subrange(0, n), path),
    decreases overrides.len() - n,
{
    if n < overrides.len() {
        assert(overrides.subrange(0, n + 1).drop_last() =~= overrides.subrange(0, n));
        lemma_override_for_prefix(overrides, path, n + 1);
    } else {
        assert(overrides.subrange(0, n) =~= overrides);
    }
}

/// A claim found among the first rules is the claim among all.
pub proof fn lemma_first_claim_prefix(
    rules: Seq<RuleView>,
    names: Seq<Seq<char>>,
    path: Seq<char>,
    n: int,
)
    requires
        0 <= n <= rules.len(),
        first_claim(rules.subrange(0, n), names, path) is Some,
    ensures
        first_claim(rules, names, path) == first_claim(rules.subrange(0, n), names, path),
    decreases rules.len() - n,
{
    if n < rules.len() {
        assert(rules.subrange(0, n + 1).drop_last() =~= rules.subrange(0, n));
        lemma_first_claim_prefix(rules, names, path, n + 1);
    } else {
        assert(rules.subrange(0, n) =~= rules);
    }
}

/// The place of the first extractor for the language `language`.
pub fn extractor_of(extractors: &Vec<Extractor>, language: &str) -> (place: Option<usize>)
    ensures
        match place {
            Some(i) => position_of(configured(extractors@), language@) == Some(i as int) && i
                < extractors.len(),
            None => position_of(configured(extractors@), language@) is None,
        },
{
    let ghost names = configured(extractors@);
    let mut i: usize = 0;
    proof {
        assert(names.subrange(0, 0) =~= Seq::<Seq<char>>::empty());
    }
    while i < extractors.len()
        invariant
            i <= extractors.len(),
            names == configured(extractors@),
            position_of(names.subrange(0, i as int), language@) is None,
        decreases extractors.len() - i,
    {
        proof {
            assert(names.subrange(0, i + 1).drop_last() =~= names.subrange(0, i as int));
            assert(names.subrange(0, i + 1).last() == extractors[i as int]@.identifier);
        }
        if str_eq(extractors[i].identifier(), language) {
            proof {
                lemma_position_of_prefix(names, language@, i + 1);
            }
            return Some(i);
        }
        i += 1;
    }
    proof {
        assert(names.subrange(0, i as int) =~= names);
    }
    None
}

/// The language that the overrides force on `path`, where they force one.
pub fn forced_language<'a>(overrides: &'a Vec<LanguageOverride>, path: &str) -> (language: Option<
    &'a str,
>)
    ensures
        match language {
            Some(name) => override_for(overrides.deep_view(), path@) == Some(name@),
            None => override_for(overrides.deep_view(), path@) is None,
        },
{
    let ghost all = overrides.deep_view();
    let mut i: usize = 0;
    proof {
        assert(all.subrange(0, 0) =~= Seq::<OverrideView>::empty());
    }
    while i < overrides.len()
        invariant
            i <= overrides.len(),
            all == overrides.deep_view(),
            override_for(all.subrange(0, i as int), path@) is None,
        decreases overrides.len() - i,
    {
        proof {
            assert(all.subrange(0, i + 1).drop_last() =~= all.subrange(0, i as int));
            assert(all.subrange(0, i + 1).last() == overrides[i as int]@);
        }
        if str_eq(overrides[i].path.as_str(), path) {
            proof {
                lemma_override_for_prefix(all, path@, i + 1);
            }
            return Some(overrides[i].language.as_str());
        }
        i += 1;
    }
    proof {
        assert(all.subrange(0, i as int) =~= all);
    }
    None
}

/// Selects the extractor for `entry`: its place among `extractors`, or `None`
/// where the entry is declined. Directories and other things that are no
/// regular files are declined, and so are files that no configured language
/// takes; that is no error.
pub fn extractor_for(
    registry: &GrammarRegistry,
    extractors: &Vec<Extractor>,
    overrides: &Vec<LanguageOverride>,
    entry: &CandidateEntry,
) -> (place: Option<usize>)
    ensures
        match place {
            Some(i) => i < extractors.len() && selection(
                registry@,
                configured(extractors@),
                overrides.deep_view(),
                entry@,
            ) == Some(i as int),
            None => selection(
                registry@,
                configured(extractors@),
                overrides.deep_view(),
                entry@,
            ) is None,
        },
{
    if !entry.is_file {
        return None;
    }
    let path = entry.path.as_str();
    match forced_language(overrides, path) {
        Some(language) => extractor_of(extractors, language),
        None => {
            let ghost rules = registry@;
            let ghost names = configured(extractors@);
            let count = registry.len();
            let mut i: usize = 0;
            proof {
                assert(rules.subrange(0, 0) =~= Seq::<RuleView>::empty());
            }
            while i < count
                invariant
                    i <= count,
                    count == rules.len(),
                    rules == registry@,
                    names == configured(extractors@),
                    path@ == entry@.path,
                    entry.is_file,
                    override_for(overrides.deep_view(), path@) is None,
                    first_claim(rules.subrange(0, i as int), names, path@) is None,
                decreases count - i,
            {
                proof {
                    assert(rules.subrange(0, i + 1).drop_last() =~= rules.subrange(0, i as int));
                    assert(rules.subrange(0, i + 1).last() == rules[i as int]);
                }
                match registry.rule(i) {
                    None => {},
                    Some(rule) => {
                        if rule.claims(path) {
                            match extractor_of(extractors, rule.identifier.as_str()) {
                                Some(place) => {
                                    proof {
                                        lemma_first_claim_prefix(rules, names, path@, i + 1);
                                    }
                                    return Some(place);
                                },
                                None => {},
                            }
                        }
                    },
                }
                i += 1;
            }
            proof {
                assert(rules.subrange(0, i as int) =~= rules);
            }
            None
        },
    }
}

} // verus!
