use vstd::prelude::*;

use crate::listing::{
    all_text_but, lemma_scan_absent, lemma_scan_found, lemma_scan_kind, lemma_scan_shape, listing_of, scan,
    scan_entries, Scan,
};

verus! {

/// The name of an ignore file.
pub open spec fn ignore_name() -> Seq<char> {
    ".gitignore"@
}

/// The name of a repository marker.
pub open spec fn marker_name() -> Seq<char> {
    ".git"@
}

/// Where an upward scan stopped, counted in levels above the starting
/// directory (level 0 is the starting directory itself).
#[derive(Debug, Clone, Copy, PartialEq, Eq, Structural)]
pub enum SearchOutcome {
    /// The directory at this level holds an ignore file.
    IgnoreFileFound(usize),
    /// The directory at this level holds a repository marker, and no ignore file.
    RepoRootFound(usize),
}

/// What to do with the pattern once the search is over.
#[derive(Debug, Clone, Copy, PartialEq, Eq, Structural)]
pub enum PlannedAction {
    /// Append to the ignore file in the directory at this level.
    AppendToExisting { level: usize },
    /// Create an ignore file in the directory at this level, the one that
    /// holds the repository marker.
    CreateAtRoot { level: usize },
}

/// Why the search could not settle on a place for the pattern.
#[derive(Debug, Clone, Copy, PartialEq, Eq, Structural)]
pub enum LocateError {
    /// The entry at this position of the directory at this level is not text.
    UnreadableName { level: usize, entry: usize },
    /// The filesystem root was passed without finding either name.
    NotInRepository,
    /// An ignore file was found, but no repository marker at or above it.
    NoEnclosingRepository,
}

/// The upward search for an ignore file or a repository marker, from level `k`
/// of `chain` (the listings of the starting directory and its ancestors, in
/// that order). `complete` tells whether `chain` reaches the filesystem root;
/// where it does not, running past its end leaves the search pending (`None`).
pub open spec fn ignore_search(
    chain: Seq<Seq<Option<Seq<char>>>>,
    complete: bool,
    k: nat,
) -> Option<Result<SearchOutcome, LocateError>>
    decreases chain.len() - k,
{
    if k >= chain.len() {
        if complete {
            Some(Err(LocateError::NotInRepository))
        } else {
            None
        }
    } else {
        match scan(chain[k as int], ignore_name()) {
            Scan::Found(_) => Some(Ok(SearchOutcome::IgnoreFileFound(k as usize))),
            Scan::Unreadable(e) => Some(Err(LocateError::UnreadableName { level: k as usize, entry: e })),
            Scan::Absent => match scan(chain[k as int], marker_name()) {
                Scan::Found(_) => Some(Ok(SearchOutcome::RepoRootFound(k as usize))),
                Scan::Unreadable(e) => Some(Err(LocateError::UnreadableName { level: k as usize, entry: e })),
                Scan::Absent => ignore_search(chain, complete, k + 1),
            },
        }
    }
}

/// The upward search for a repository marker alone, from level `k`; it gives
/// the level of the marker.
pub open spec fn marker_search(
    chain: Seq<Seq<Option<Seq<char>>>>,
    complete: bool,
    k: nat,
) -> Option<Result<usize, LocateError>>
    decreases chain.len() - k,
{
    if k >= chain.len() {
        if complete {
            Some(Err(LocateError::NotInRepository))
        } else {
            None
        }
    } else {
        match scan(chain[k as int], marker_name()) {
            Scan::Found(_) => Some(Ok(k as usize)),
            Scan::Unreadable(e) => Some(Err(LocateError::UnreadableName { level: k as usize, entry: e })),
            Scan::Absent => marker_search(chain, complete, k + 1),
        }
    }
}

/// Where the pattern goes, given the listings of the starting directory and
/// its ancestors: the ignore file that the first search finds, once a marker
/// at or above it confirms that it lies in a repository, or a new ignore file
/// beside the marker that the first search finds.
pub open spec fn plan_of(chain: Seq<Seq<Option<Seq<char>>>>, complete: bool) -> Option<
    Result<PlannedAction, LocateError>,
> {
    match ignore_search(chain, complete, 0) {
        None => None,
        Some(Err(e)) => Some(Err(e)),
        Some(Ok(SearchOutcome::RepoRootFound(k))) => Some(Ok(PlannedAction::CreateAtRoot { level: k })),
        Some(Ok(SearchOutcome::IgnoreFileFound(g))) => match marker_search(chain, complete, g as nat) {
            None => None,
            Some(Ok(_)) => Some(Ok(PlannedAction::AppendToExisting { level: g })),
            Some(Err(LocateError::NotInRepository)) => Some(Err(LocateError::NoEnclosingRepository)),
            Some(Err(e)) => Some(Err(e)),
        },
    }
}

/// A level that the first search passes over: every name is text, and
/// neither an ignore file nor a marker is among them.
pub open spec fn passes_both(entries: Seq<Option<Seq<char>>>) -> bool {
    scan(entries, ignore_name()) == Scan::Absent && scan(entries, marker_name()) == Scan::Absent
}

proof fn lemma_ignore_search_skips(chain: Seq<Seq<Option<Seq<char>>>>, complete: bool, k: nat, n: nat)
    requires
        k <= n <= chain.len(),
        forall|j: int| k <= j < n ==> passes_both(#[trigger] chain[j]),
    ensures
        ignore_search(chain, complete, k) == ignore_search(chain, complete, n),
    decreases n - k,
{
    if k < n {
        assert(passes_both(chain[k as int]));
        lemma_ignore_search_skips(chain, complete, k + 1, n);
    }
}

proof fn lemma_marker_search_skips(chain: Seq<Seq<Option<Seq<char>>>>, complete: bool, k: nat, n: nat)
    requires
        k <= n <= chain.len(),
        forall|j: int| k <= j < n ==> scan(#[trigger] chain[j], marker_name()) == Scan::Absent,
    ensures
        marker_search(chain, complete, k) == marker_search(chain, complete, n),
    decreases n - k,
{
    if k < n {
        assert(scan(chain[k as int], marker_name()) == Scan::Absent);
        lemma_marker_search_skips(chain, complete, k + 1, n);
    }
}

/// What the caller does next.
#[derive(Debug, Clone, Copy, PartialEq, Eq, Structural)]
pub enum Decision {
    /// Move to the parent of the directory last read, and hand over its
    /// entries, or report that there is no parent.
    ReadParent,
    /// The search is over: act on the pattern.
    Done(PlannedAction),
    /// The search is over and failed.
    Failed(LocateError),
}

/// The decision that a possibly pending plan calls for.
pub open spec fn decision_of(plan: Option<Result<PlannedAction, LocateError>>) -> Decision {
    match plan {
        None => Decision::ReadParent,
        Some(Ok(a)) => Decision::Done(a),
        Some(Err(e)) => Decision::Failed(e),
    }
}

/// Which of the two searches is running.
#[derive(Debug, Clone, Copy, PartialEq, Eq, Structural)]
enum Phase {
    FindIgnore,
    ConfirmMarker { ignore_level: usize },
    Finished,
}

/// The upward search, one directory at a time. The caller reads the starting
/// directory and then each parent in turn, as long as the decision asks for
/// it; the locator remembers the listings it was given.
pub struct Locator {
    phase: Phase,
    level: usize,
    seen: Ghost<Seq<Seq<Option<Seq<char>>>>>,
}

impl Locator {
    /// The listings handed over so far, the starting directory's first.
    pub closed spec fn seen(&self) -> Seq<Seq<Option<Seq<char>>>> {
        self.seen@
    }

    /// Whether the locator waits for another directory.
    pub closed spec fn searching(&self) -> bool {
        !(self.phase is Finished)
    }

    /// The levels read so far are the ones that the running search has passed
    /// over, and the level count matches them.
    pub closed spec fn wf(&self) -> bool {
        let seen = self.seen@;
        &&& self.level == seen.len()
        &&& fits(seen)
        &&& match self.phase {
            Phase::FindIgnore => forall|j: int| 0 <= j < seen.len() ==> passes_both(#[trigger] seen[j]),
            Phase::ConfirmMarker { ignore_level: g } => {
                &&& g < seen.len()
                &&& forall|j: int| 0 <= j < g ==> passes_both(#[trigger] seen[j])
                &&& scan(seen[g as int], ignore_name()) is Found
                &&& forall|j: int| g <= j < seen.len() ==> scan(#[trigger] seen[j], marker_name()) == Scan::Absent
            },
            Phase::Finished => true,
        }
    }

    /// A locator that has read nothing yet.
    pub fn new() -> (r: Self)
        ensures
            r.wf(),
            fits(r.seen()),
            r.searching(),
            r.seen() == Seq::<Seq<Option<Seq<char>>>>::empty(),
    {
        Locator { phase: Phase::FindIgnore, level: 0, seen: Ghost(Seq::empty()) }
    }

    /// Takes the entries of the next directory up (the starting directory on
    /// the first call) and decides what follows.
    pub fn on_entries(&mut self, names: &Vec<Option<String>>) -> (d: Decision)
        requires
            old(self).wf(),
            old(self).searching(),
            old(self).seen().len() < usize::MAX,
        ensures
            final(self).wf(),
            fits(final(self).seen()),
            final(self).seen() == old(self).seen().push(listing_of(names@)),
            final(self).searching() == (d is ReadParent),
            d == decision_of(plan_of(final(self).seen(), false)),
    {
        let ghost prev = self.seen@;
        let ghost entries = listing_of(names@);
        let ghost chain = prev.push(entries);
        let entry_count = names.len();
        proof {
            assert(chain[prev.len() as int].len() == entry_count);
            assert forall|j: int| 0 <= j < chain.len() implies (#[trigger] chain[j]).len() <= usize::MAX by {
                if j < prev.len() {
                    assert(chain[j] == prev[j]);
                }
            }
        }
        let n = self.level;
        self.seen = Ghost(chain);
        self.level = n + 1;
        assert(chain[n as int] == entries);
        match self.phase {
            Phase::FindIgnore => {
                proof {
                    assert forall|j: int| 0 <= j < n implies passes_both(#[trigger] chain[j]) by {
                        assert(chain[j] == prev[j]);
                    }
                    lemma_ignore_search_skips(chain, false, 0, n as nat);
                    assert(ignore_search(chain, false, (n + 1) as nat) is None);
                    assert(marker_search(chain, false, (n + 1) as nat) is None);
                }
                match scan_entries(names, ".gitignore") {
                    Scan::Found(_) => match scan_entries(names, ".git") {
                        Scan::Found(_) => {
                            self.phase = Phase::Finished;
                            Decision::Done(PlannedAction::AppendToExisting { level: n })
                        },
                        Scan::Unreadable(e) => {
                            self.phase = Phase::Finished;
                            Decision::Failed(LocateError::UnreadableName { level: n, entry: e })
                        },
                        Scan::Absent => {
                            self.phase = Phase::ConfirmMarker { ignore_level: n };
                            Decision::ReadParent
                        },
                    },
                    Scan::Unreadable(e) => {
                        self.phase = Phase::Finished;
                        Decision::Failed(LocateError::UnreadableName { level: n, entry: e })
                    },
                    Scan::Absent => match scan_entries(names, ".git") {
                        Scan::Found(_) => {
                            self.phase = Phase::Finished;
                            Decision::Done(PlannedAction::CreateAtRoot { level: n })
                        },
                        Scan::Unreadable(e) => {
                            self.phase = Phase::Finished;
                            Decision::Failed(LocateError::UnreadableName { level: n, entry: e })
                        },
                        Scan::Absent => Decision::ReadParent,
                    },
                }
            },
            Phase::ConfirmMarker { ignore_level: g } => {
                proof {
                    assert forall|j: int| 0 <= j < g implies passes_both(#[trigger] chain[j]) by {
                        assert(chain[j] == prev[j]);
                    }
                    assert forall|j: int| g <= j < n implies scan(#[trigger] chain[j], marker_name())
                        == Scan::Absent by {
                        assert(chain[j] == prev[j]);
                    }
                    assert(chain[g as int] == prev[g as int]);
                    lemma_ignore_search_skips(chain, false, 0, g as nat);
                    lemma_marker_search_skips(chain, false, g as nat, n as nat);
                }
                match scan_entries(names, ".git") {
                    Scan::Found(_) => {
                        self.phase = Phase::Finished;
                        Decision::Done(PlannedAction::AppendToExisting { level: g })
                    },
                    Scan::Unreadable(e) => {
                        self.phase = Phase::Finished;
                        Decision::Failed(LocateError::UnreadableName { level: n, entry: e })
                    },
                    Scan::Absent => Decision::ReadParent,
                }
            },
            Phase::Finished => Decision::ReadParent,
        }
    }

    /// Records that the directory last read has no parent: the filesystem
    /// root was passed, and the search ends.
    pub fn on_no_parent(&mut self) -> (d: Decision)
        requires
            old(self).wf(),
            old(self).searching(),
        ensures
            final(self).wf(),
            fits(final(self).seen()),
            !final(self).searching(),
            final(self).seen() == old(self).seen(),
            d == decision_of(plan_of(old(self).seen(), true)),
            d is Failed,
    {
        let ghost chain = self.seen@;
        let n = self.level;
        let d = match self.phase {
            Phase::ConfirmMarker { ignore_level: g } => {
                proof {
                    lemma_ignore_search_skips(chain, true, 0, g as nat);
                    lemma_marker_search_skips(chain, true, g as nat, n as nat);
                }
                Decision::Failed(LocateError::NoEnclosingRepository)
            },
            _ => {
                proof {
                    lemma_ignore_search_skips(chain, true, 0, n as nat);
                }
                Decision::Failed(LocateError::NotInRepository)
            },
        };
        self.phase = Phase::Finished;
        d
    }
}

/// Listings that a machine can hold: the chain and each listing in it have a
/// length that fits in `usize`.
pub open spec fn fits(chain: Seq<Seq<Option<Seq<char>>>>) -> bool {
    &&& chain.len() <= usize::MAX
    &&& forall|j: int| 0 <= j < chain.len() ==> (#[trigger] chain[j]).len() <= usize::MAX
}

/// Whether `name` stands among the entries.
pub open spec fn lists(entries: Seq<Option<Seq<char>>>, name: Seq<char>) -> bool {
    exists|e: int| 0 <= e < entries.len() && entries[e] == Some(name)
}

/// Whether every entry's name is text.
pub open spec fn all_text(entries: Seq<Option<Seq<char>>>) -> bool {
    forall|e: int| 0 <= e < entries.len() ==> (#[trigger] entries[e]) is Some
}

proof fn lemma_names_differ()
    ensures
        ignore_name() != marker_name(),
{
    reveal_strlit(".gitignore");
    reveal_strlit(".git");
    assert(ignore_name().len() != marker_name().len());
}

/// What a scan of readable entries gives: found where the name is listed,
/// absent where it is not.
proof fn lemma_scan_of_text(entries: Seq<Option<Seq<char>>>, name: Seq<char>)
    requires
        all_text(entries),
    ensures
        lists(entries, name) ==> scan(entries, name) is Found,
        !lists(entries, name) ==> scan(entries, name) == Scan::Absent,
{
    lemma_scan_kind(entries, name, 0);
    if scan(entries, name) is Unreadable {
        let m = choose|m: int| 0 <= m < entries.len() && entries[m] is None;
        assert(entries[m] is Some);
    }
    if scan(entries, name) is Absent && lists(entries, name) {
        let e = choose|e: int| 0 <= e < entries.len() && entries[e] == Some(name);
        assert(entries[e] != Some(name));
    }
}

proof fn lemma_repo_found_shape(chain: Seq<Seq<Option<Seq<char>>>>, complete: bool, i: nat)
    requires
        fits(chain),
    ensures
        ignore_search(chain, complete, i) matches Some(Ok(SearchOutcome::RepoRootFound(r))) ==> {
            &&& i <= r < chain.len()
            &&& forall|j: int| i <= j < r ==> passes_both(#[trigger] chain[j])
            &&& scan(chain[r as int], ignore_name()) == Scan::Absent
            &&& scan(chain[r as int], marker_name()) is Found
        },
    decreases chain.len() - i,
{
    if i < chain.len() && passes_both(chain[i as int]) {
        lemma_repo_found_shape(chain, complete, i + 1);
    }
}

proof fn lemma_ignore_search_settled(
    prefix: Seq<Seq<Option<Seq<char>>>>,
    chain: Seq<Seq<Option<Seq<char>>>>,
    complete: bool,
    k: nat,
)
    requires
        prefix.len() <= chain.len(),
        chain.subrange(0, prefix.len() as int) == prefix,
        ignore_search(prefix, false, k) is Some,
    ensures
        ignore_search(chain, complete, k) == ignore_search(prefix, false, k),
    decreases prefix.len() - k,
{
    assert(chain[k as int] == chain.subrange(0, prefix.len() as int)[k as int]);
    if passes_both(prefix[k as int]) {
        lemma_ignore_search_settled(prefix, chain, complete, k + 1);
    }
}

proof fn lemma_marker_search_settled(
    prefix: Seq<Seq<Option<Seq<char>>>>,
    chain: Seq<Seq<Option<Seq<char>>>>,
    complete: bool,
    k: nat,
)
    requires
        prefix.len() <= chain.len(),
        chain.subrange(0, prefix.len() as int) == prefix,
        marker_search(prefix, false, k) is Some,
    ensures
        marker_search(chain, complete, k) == marker_search(prefix, false, k),
    decreases prefix.len() - k,
{
    assert(chain[k as int] == chain.subrange(0, prefix.len() as int)[k as int]);
    if scan(prefix[k as int], marker_name()) == Scan::Absent {
        lemma_marker_search_settled(prefix, chain, complete, k + 1);
    }
}

/// A plan that the listings read so far settle is the plan for every chain
/// that continues them, whether or not it reaches the filesystem root: once
/// the locator decides, no directory further up can change the decision.
pub proof fn law_settled_plan_stands(
    prefix: Seq<Seq<Option<Seq<char>>>>,
    chain: Seq<Seq<Option<Seq<char>>>>,
    complete: bool,
)
    requires
        prefix.len() <= chain.len(),
        chain.subrange(0, prefix.len() as int) == prefix,
        plan_of(prefix, false) is Some,
    ensures
        plan_of(chain, complete) == plan_of(prefix, false),
{
    lemma_ignore_search_settled(prefix, chain, complete, 0);
    if let Some(Ok(SearchOutcome::IgnoreFileFound(g))) = ignore_search(prefix, false, 0) {
        lemma_marker_search_settled(prefix, chain, complete, g as nat);
    }
}

/// Where no directory from the start up to level `k` holds an ignore file,
/// and level `k` is the first to hold a repository marker, the ignore file is
/// created at level `k`: in the repository's root, beside the marker, and not
/// in the starting directory.
pub proof fn law_creates_at_repository_root(chain: Seq<Seq<Option<Seq<char>>>>, complete: bool, k: nat)
    requires
        k < chain.len(),
        forall|j: int| 0 <= j <= k ==> all_text(#[trigger] chain[j]),
        forall|j: int| 0 <= j <= k ==> !lists(#[trigger] chain[j], ignore_name()),
        forall|j: int| 0 <= j < k ==> !lists(#[trigger] chain[j], marker_name()),
        lists(chain[k as int], marker_name()),
    ensures
        plan_of(chain, complete) == Some(
            Ok::<PlannedAction, LocateError>(PlannedAction::CreateAtRoot { level: k as usize }),
        ),
{
    assert forall|j: int| 0 <= j < k implies passes_both(#[trigger] chain[j]) by {
        lemma_scan_of_text(chain[j], ignore_name());
        lemma_scan_of_text(chain[j], marker_name());
    }
    lemma_ignore_search_skips(chain, complete, 0, k);
    lemma_scan_of_text(chain[k as int], ignore_name());
    lemma_scan_of_text(chain[k as int], marker_name());
}

/// Where the first ignore file on the way up stands at level `g`, and no
/// directory from the start to the filesystem root holds a repository marker,
/// the plan fails for want of an enclosing repository, and nothing is written.
/// (Levels are counted in `usize`, so the chain holds no more levels than that.)
pub proof fn law_ignore_file_outside_repository(chain: Seq<Seq<Option<Seq<char>>>>, g: nat)
    requires
        g < chain.len() <= usize::MAX,
        forall|j: int| 0 <= j < chain.len() ==> all_text(#[trigger] chain[j]),
        forall|j: int| 0 <= j < chain.len() ==> !lists(#[trigger] chain[j], marker_name()),
        forall|j: int| 0 <= j < g ==> !lists(#[trigger] chain[j], ignore_name()),
        lists(chain[g as int], ignore_name()),
    ensures
        plan_of(chain, true) == Some(Err::<PlannedAction, LocateError>(LocateError::NoEnclosingRepository)),
{
    assert forall|j: int| 0 <= j < g implies passes_both(#[trigger] chain[j]) by {
        lemma_scan_of_text(chain[j], ignore_name());
        lemma_scan_of_text(chain[j], marker_name());
    }
    assert forall|j: int| g <= j < chain.len() implies scan(#[trigger] chain[j], marker_name())
        == Scan::Absent by {
        lemma_scan_of_text(chain[j], marker_name());
    }
    lemma_ignore_search_skips(chain, true, 0, g);
    lemma_marker_search_skips(chain, true, g, chain.len());
    lemma_scan_of_text(chain[g as int], ignore_name());
}

/// After the plan creates an ignore file beside the marker at level `k`, the
/// next search over the same directories, now with the new file listed at
/// any position at that level, finds that file and appends to it.
pub proof fn law_created_file_is_found_next(
    chain: Seq<Seq<Option<Seq<char>>>>,
    complete: bool,
    k: nat,
    pos: int,
)
    requires
        fits(chain),
        k < chain.len(),
        chain[k as int].len() < usize::MAX,
        0 <= pos <= chain[k as int].len(),
        plan_of(chain, complete) == Some(Ok::<PlannedAction, LocateError>(PlannedAction::CreateAtRoot { level: k as usize })),
    ensures
        plan_of(chain.update(k as int, chain[k as int].insert(pos, Some(ignore_name()))), complete)
            == Some(Ok::<PlannedAction, LocateError>(PlannedAction::AppendToExisting { level: k as usize })),
{
    let old_level = chain[k as int];
    let new_level = old_level.insert(pos, Some(ignore_name()));
    let next = chain.update(k as int, new_level);
    lemma_repo_found_shape(chain, complete, 0);
    lemma_names_differ();
    assert(ignore_search(chain, complete, 0) == Some(
        Ok::<SearchOutcome, LocateError>(SearchOutcome::RepoRootFound(k as usize)),
    ));
    lemma_scan_shape(old_level, ignore_name(), 0);
    lemma_scan_shape(old_level, marker_name(), 0);
    assert forall|j: int| 0 <= j < pos implies (#[trigger] new_level[j]) is Some && new_level[j]
        != Some(ignore_name()) by {
        assert(new_level[j] == old_level[j]);
    }
    lemma_scan_found(new_level, ignore_name(), 0, pos);
    let m = scan(old_level, marker_name())->Found_0 as int;
    if pos <= m {
        assert forall|j: int| 0 <= j < m + 1 implies (#[trigger] new_level[j]) is Some
            && new_level[j] != Some(marker_name()) by {
            if j < pos {
                assert(new_level[j] == old_level[j]);
            } else if j > pos {
                assert(new_level[j] == old_level[j - 1]);
            }
        }
        assert(new_level[m + 1] == old_level[m]);
        lemma_scan_found(new_level, marker_name(), 0, m + 1);
    } else {
        assert forall|j: int| 0 <= j < m implies (#[trigger] new_level[j]) is Some && new_level[j]
            != Some(marker_name()) by {
            assert(new_level[j] == old_level[j]);
        }
        assert(new_level[m] == old_level[m]);
        lemma_scan_found(new_level, marker_name(), 0, m);
    }
    assert forall|j: int| 0 <= j < k implies passes_both(#[trigger] next[j]) by {
        assert(next[j] == chain[j]);
    }
    lemma_ignore_search_skips(next, complete, 0, k);
    assert(next[k as int] == new_level);
}

} // verus!
