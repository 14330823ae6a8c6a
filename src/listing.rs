use vstd::prelude::*;

use crate::text::same_text;

verus! {

/// What a directory lists, as the search sees it: one entry per name, and
/// `None` for a name that cannot be read as text.
pub open spec fn listing_of(names: Seq<Option<String>>) -> Seq<Option<Seq<char>>> {
    names.map_values(|n: Option<String>| n.deep_view())
}

/// The result of looking for one name among a directory's entries.
#[derive(Debug, Clone, Copy, PartialEq, Eq, Structural)]
pub enum Scan {
    /// The name stands at this position, and every entry before it is text.
    Found(usize),
    /// The entry at this position is not text, and no entry before it matches.
    Unreadable(usize),
    /// Every entry is text, and none matches.
    Absent,
}

/// Looks for `target` among the entries from position `i` on, stopping at the
/// first entry that matches or cannot be read.
pub open spec fn scan_from(entries: Seq<Option<Seq<char>>>, target: Seq<char>, i: int) -> Scan
    decreases entries.len() - i,
{
    if i < 0 || i >= entries.len() {
        Scan::Absent
    } else if entries[i] is None {
        Scan::Unreadable(i as usize)
    } else if entries[i] == Some(target) {
        Scan::Found(i as usize)
    } else {
        scan_from(entries, target, i + 1)
    }
}

/// Looks for `target` among all of a directory's entries, in listing order.
pub open spec fn scan(entries: Seq<Option<Seq<char>>>, target: Seq<char>) -> Scan {
    scan_from(entries, target, 0)
}

/// Looks for `target` among a directory's entries, in listing order: the
/// first entry that matches or cannot be read as text decides.
pub fn scan_entries(names: &Vec<Option<String>>, target: &str) -> (r: Scan)
    ensures
        r == scan(listing_of(names@), target@),
{
    let ghost entries = listing_of(names@);
    let mut i: usize = 0;
    while i < names.len()
        invariant
            i <= names@.len(),
            entries == listing_of(names@),
            scan(entries, target@) == scan_from(entries, target@, i as int),
        decreases names@.len() - i,
    {
        match &names[i] {
            None => {
                return Scan::Unreadable(i);
            },
            Some(name) => {
                if same_text(name.as_str(), target) {
                    return Scan::Found(i);
                }
            },
        }
        i = i + 1;
    }
    Scan::Absent
}

/// Every entry from position `i` up to `m` is text and differs from `target`.
pub open spec fn all_text_but(entries: Seq<Option<Seq<char>>>, target: Seq<char>, i: int, m: int) -> bool {
    forall|j: int| i <= j < m ==> (#[trigger] entries[j]) is Some && entries[j] != Some(target)
}

pub proof fn lemma_scan_found(entries: Seq<Option<Seq<char>>>, target: Seq<char>, i: int, m: int)
    requires
        0 <= i <= m < entries.len(),
        entries[m] == Some(target),
        all_text_but(entries, target, i, m),
    ensures
        scan_from(entries, target, i) == Scan::Found(m as usize),
    decreases m - i,
{
    if i < m {
        assert(entries[i] is Some && entries[i] != Some(target));
        lemma_scan_found(entries, target, i + 1, m);
    }
}

pub proof fn lemma_scan_absent(entries: Seq<Option<Seq<char>>>, target: Seq<char>, i: int)
    requires
        0 <= i,
        all_text_but(entries, target, i, entries.len() as int),
    ensures
        scan_from(entries, target, i) == Scan::Absent,
    decreases entries.len() - i,
{
    if i < entries.len() {
        assert(entries[i] is Some && entries[i] != Some(target));
        lemma_scan_absent(entries, target, i + 1);
    }
}

pub proof fn lemma_scan_shape(entries: Seq<Option<Seq<char>>>, target: Seq<char>, i: int)
    requires
        0 <= i,
        entries.len() <= usize::MAX,
    ensures
        scan_from(entries, target, i) is Found ==> {
            let m = scan_from(entries, target, i)->Found_0 as int;
            &&& i <= m < entries.len()
            &&& entries[m] == Some(target)
            &&& all_text_but(entries, target, i, m)
        },
        scan_from(entries, target, i) is Unreadable ==> {
            let m = scan_from(entries, target, i)->Unreadable_0 as int;
            &&& i <= m < entries.len()
            &&& entries[m] is None
        },
        scan_from(entries, target, i) is Absent ==> all_text_but(entries, target, i, entries.len() as int),
    decreases entries.len() - i,
{
    if i < entries.len() && entries[i] is Some && entries[i] != Some(target) {
        lemma_scan_shape(entries, target, i + 1);
        let r = scan_from(entries, target, i);
        if r is Found {
            let m = r->Found_0 as int;
            assert forall|j: int| i <= j < m implies (#[trigger] entries[j]) is Some && entries[j]
                != Some(target) by {
                if j > i {
                    assert(all_text_but(entries, target, i + 1, m));
                }
            }
        }
        if r is Absent {
            assert forall|j: int| i <= j < entries.len() implies (#[trigger] entries[j]) is Some
                && entries[j] != Some(target) by {
                if j > i {
                    assert(all_text_but(entries, target, i + 1, entries.len() as int));
                }
            }
        }
    }
}

/// What the kind of a scan's result tells of the entries, whatever their number.
pub proof fn lemma_scan_kind(entries: Seq<Option<Seq<char>>>, target: Seq<char>, i: int)
    requires
        0 <= i,
    ensures
        scan_from(entries, target, i) is Found ==> exists|m: int|
            i <= m < entries.len() && entries[m] == Some(target),
        scan_from(entries, target, i) is Unreadable ==> exists|m: int|
            i <= m < entries.len() && entries[m] is None,
        scan_from(entries, target, i) is Absent ==> all_text_but(entries, target, i, entries.len() as int),
    decreases entries.len() - i,
{
    if i < entries.len() {
        if entries[i] is Some && entries[i] != Some(target) {
            lemma_scan_kind(entries, target, i + 1);
            if scan_from(entries, target, i) is Absent {
                assert forall|j: int| i <= j < entries.len() implies (#[trigger] entries[j]) is Some
                    && entries[j] != Some(target) by {
                    if j > i {
                        assert(all_text_but(entries, target, i + 1, entries.len() as int));
                    }
                }
            }
        } else {
            assert(i <= i < entries.len());
        }
    }
}

} // verus!
