//! File discovery, as far as it is decided here: which walk to make, what to do
//! with each thing the walk reports, and which entries it found.
//!
//! Walking the file system is the caller's part. The caller asks for a plan
//! first, so that a fault of the configuration is known before any work
//! begins; it then reports each event of the walk and is told whether to go on.

use crate::failure::ConfigError;
use vstd::prelude::*;
use vstd::string::*;

verus! {

/// A root path as the caller found it: the path, and whether anything exists
/// there.
#[derive(Clone, Debug, PartialEq, Eq)]
pub struct RootPath {
    pub path: String,
    pub exists: bool,
}

/// A path that discovery found, and whether it is a regular file.
#[derive(Clone, Debug, PartialEq, Eq)]
pub struct CandidateEntry {
    pub path: String,
    pub is_file: bool,
}

/// The model of a `CandidateEntry`.
pub struct EntryView {
    pub path: Seq<char>,
    pub is_file: bool,
}

impl View for CandidateEntry {
    type V = EntryView;

    open spec fn view(&self) -> EntryView {
        EntryView { path: self.path@, is_file: self.is_file }
    }
}

impl DeepView for CandidateEntry {
    type V = EntryView;

    open spec fn deep_view(&self) -> EntryView {
        self@
    }
}

/// The walk to make: from `first` and from each path of `rest`, with each of
/// the walker's rules for passing entries over switched on or off.
#[derive(Clone, Debug, PartialEq, Eq)]
pub struct WalkPlan {
    pub first: String,
    pub rest: Vec<String>,
    /// Pass over hidden files and directories.
    pub hidden: bool,
    /// Read the ignore files of the directories above the roots, too.
    pub parents: bool,
    /// Honour `.ignore` files.
    pub ignore: bool,
    /// Honour `.gitignore` files.
    pub git_ignore: bool,
    /// Honour the exclude file of the repository.
    pub git_exclude: bool,
    /// Honour the user's global ignore file.
    pub git_global: bool,
}

/// Every rule by which the walker passes entries over is switched as `on`
/// says: with all of them off, the walk reports every entry under its roots.
pub open spec fn rules_switched(plan: WalkPlan, on: bool) -> bool {
    &&& plan.hidden == on
    &&& plan.parents == on
    &&& plan.ignore == on
    &&& plan.git_ignore == on
    &&& plan.git_exclude == on
    &&& plan.git_global == on
}

/// The index of the first root that does not exist, or the number of roots
/// where all exist.
pub open spec fn first_missing(roots: Seq<RootPath>) -> int
    decreases roots.len(),
{
    if roots.len() == 0 {
        0
    } else if first_missing(roots.drop_last()) < roots.len() - 1 {
        first_missing(roots.drop_last())
    } else if roots.last().exists {
        roots.len() as int
    } else {
        roots.len() - 1
    }
}

/// `first_missing` is the least index of a root that does not exist.
pub proof fn lemma_first_missing(roots: Seq<RootPath>)
    ensures
        0 <= first_missing(roots) <= roots.len(),
        forall|k: int| 0 <= k < first_missing(roots) ==> (#[trigger] roots[k]).exists,
        first_missing(roots) < roots.len() ==> !roots[first_missing(roots)].exists,
    decreases roots.len(),
{
    if roots.len() > 0 {
        let front = roots.drop_last();
        lemma_first_missing(front);
        assert forall|k: int| 0 <= k < first_missing(roots) implies (#[trigger] roots[k]).exists by {
            if k < front.len() {
                assert(front[k] == roots[k]);
            }
        }
        if first_missing(roots) < front.len() {
            assert(front[first_missing(roots)] == roots[first_missing(roots)]);
        }
    }
}

/// The walk over `roots` that `plan_walk` plans where it plans one.
pub open spec fn planned(roots: Seq<RootPath>, ignore_mode: bool, plan: WalkPlan) -> bool {
    &&& roots.len() > 0
    &&& plan.first@ == roots[0].path@
    &&& plan.rest.deep_view() == Seq::new((roots.len() - 1) as nat, |i: int| roots[i + 1].path@)
    &&& rules_switched(plan, ignore_mode)
}

/// Plans the walk over `roots`. Without roots there is no walk, and none
/// where a root does not exist: the first such root is named. Otherwise the
/// walk starts from every root, and the walker's rules for passing entries
/// over are all on or all off, as `ignore_mode` says: ignore files of every
/// kind, those of the directories above, and hidden files.
pub fn plan_walk(roots: &Vec<RootPath>, ignore_mode: bool) -> (plan: Result<WalkPlan, ConfigError>)
    ensures
        match plan {
            Ok(plan) => first_missing(roots@) == roots.len() && planned(roots@, ignore_mode, plan),
            Err(ConfigError::NoRoots) => roots.len() == 0,
            Err(ConfigError::MissingRoot { root }) => roots.len() > 0 && root == first_missing(
                roots@,
            ) && root < roots.len(),
            Err(_) => false,
        },
{
    proof {
        lemma_first_missing(roots@);
    }
    if roots.len() == 0 {
        return Err(ConfigError::NoRoots);
    }
    let mut i: usize = 0;
    while i < roots.len()
        invariant
            i <= roots.len(),
            i <= first_missing(roots@),
            0 <= first_missing(roots@) <= roots.len(),
            forall|k: int| 0 <= k < first_missing(roots@) ==> (#[trigger] roots@[k]).exists,
            first_missing(roots@) < roots.len() ==> !roots[first_missing(roots@)].exists,
        decreases roots.len() - i,
    {
        if !roots[i].exists {
            return Err(ConfigError::MissingRoot { root: i });
        }
        i += 1;
    }
    let mut rest: Vec<String> = Vec::new();
    let mut j: usize = 1;
    while j < roots.len()
        invariant
            1 <= j <= roots.len(),
            rest.len() == j - 1,
            forall|k: int| 0 <= k < rest.len() ==> (#[trigger] rest[k])@ == roots[k + 1].path@,
        decreases roots.len() - j,
    {
        rest.push(roots[j].path.clone());
        j += 1;
    }
    let plan = WalkPlan {
        first: roots[0].path.clone(),
        rest,
        hidden: ignore_mode,
        parents: ignore_mode,
        ignore: ignore_mode,
        git_ignore: ignore_mode,
        git_exclude: ignore_mode,
        git_global: ignore_mode,
    };
    proof {
        assert(plan.rest.deep_view() =~= Seq::new(
            (roots.len() - 1) as nat,
            |i: int| roots[i + 1].path@,
        ));
    }
    Ok(plan)
}

/// What the walk reports: an entry it found, or a place it could not read.
#[derive(Clone, Debug, PartialEq, Eq)]
pub enum WalkEvent {
    Found(CandidateEntry),
    Unreadable,
}

/// Whether the walk goes on.
#[derive(Clone, Copy, Debug, PartialEq, Eq, Structural)]
pub enum WalkState {
    Continue,
    Quit,
}

/// What the walker does after an event. `delivered` says whether the consumer
/// took the entry, where the event was one. A place that could not be read is
/// passed over and the walk goes on with its siblings; an entry that the
/// consumer took lets the walk go on; one that the consumer did not take ends
/// it, for then nobody is left to take any.
pub fn next_state(event: &WalkEvent, delivered: bool) -> (state: WalkState)
    ensures
        state == (if event is Found && !delivered {
            WalkState::Quit
        } else {
            WalkState::Continue
        }),
{
    match event {
        WalkEvent::Found(_) => if delivered {
            WalkState::Continue
        } else {
            WalkState::Quit
        },
        WalkEvent::Unreadable => WalkState::Continue,
    }
}

/// The entries among `events`, in their order.
pub open spec fn entries_of(events: Seq<WalkEvent>) -> Seq<EntryView>
    decreases events.len(),
{
    if events.len() == 0 {
        Seq::empty()
    } else {
        match events.last() {
            WalkEvent::Found(entry) => entries_of(events.drop_last()).push(entry@),
            WalkEvent::Unreadable => entries_of(events.drop_last()),
        }
    }
}

/// The candidate entries that a walk found: every entry it reported, in the
/// order of the reports. The places it could not read are dropped.
pub fn find_files(events: &Vec<WalkEvent>) -> (entries: Vec<CandidateEntry>)
    ensures
        entries.deep_view() == entries_of(events@),
{
    let mut entries: Vec<CandidateEntry> = Vec::new();
    let mut i: usize = 0;
    proof {
        assert(events@.subrange(0, 0) =~= Seq::<WalkEvent>::empty());
        assert(entries.deep_view() =~= Seq::<EntryView>::empty());
    }
    while i < events.len()
        invariant
            i <= events.len(),
            entries.deep_view() == entries_of(events@.subrange(0, i as int)),
        decreases events.len() - i,
    {
        let ghost before = entries.deep_view();
        proof {
            assert(events@.subrange(0, i + 1).drop_last() =~= events@.subrange(0, i as int));
            assert(events@.subrange(0, i + 1).last() == events@[i as int]);
        }
        match &events[i] {
            WalkEvent::Found(entry) => {
                entries.push(CandidateEntry { path: entry.path.clone(), is_file: entry.is_file });
                assert(entries.deep_view() =~= before.push(entry@));
            },
            WalkEvent::Unreadable => {},
        }
        i += 1;
    }
    proof {
        assert(events@.subrange(0, i as int) =~= events@);
    }
    entries
}

} // verus!
