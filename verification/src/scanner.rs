//! The source scanner, without its reads: what the file system holds under
//! each input path comes in as a value, and the scanner decides which
//! files are sources and in which order they are read.

use vstd::prelude::*;
use crate::bytes::comes_before;
use crate::lexer::SLASH;
use crate::model::{views, SourceUnit, SourceUnitView, SyncError, SyncErrorView};
use crate::order::{sort, sorted, Ranked, SortKey};

verus! {

/// The bytes of the extension of a source file.
pub const DOT: u8 = 46;
pub const LOWER_R: u8 = 114;
pub const LOWER_S: u8 = 115;

/// Whether a path names a source file: whether it ends in `.rs`.
pub open spec fn is_source(path: Seq<u8>) -> bool {
    path.len() >= 3 && path[path.len() - 3] == DOT && path[path.len() - 2] == LOWER_R && path[path.len()
        - 1] == LOWER_S
}

/// The number of `/` among the first `n` bytes of a path.
pub open spec fn slashes(path: Seq<u8>, n: int) -> int
    decreases n,
{
    if n <= 0 {
        0
    } else {
        slashes(path, n - 1) + if path[n - 1] == SLASH {
            1int
        } else {
            0int
        }
    }
}

/// The depth of a path: the number of `/` in it.
pub open spec fn depth(path: Seq<u8>) -> int {
    slashes(path, path.len() as int)
}

/// What the file system holds under one input path: nothing, or the files
/// that the path expands to (the file itself, or every file beneath the
/// directory).
#[derive(Debug, PartialEq, Eq)]
pub struct ScanEntry {
    pub path: Vec<u8>,
    pub found: Option<Vec<SourceUnit>>,
}

/// What was found under one input path, as a mathematical value.
pub struct ScanEntryView {
    pub path: Seq<u8>,
    pub found: Option<Seq<SourceUnitView>>,
}

impl View for ScanEntry {
    type V = ScanEntryView;

    open spec fn view(&self) -> ScanEntryView {
        ScanEntryView {
            path: self.path@,
            found: match self.found {
                Some(files) => Some(views(files@)),
                None => None,
            },
        }
    }
}

/// The first input path below `n` under which nothing was found.
pub open spec fn first_absent(entries: Seq<ScanEntryView>, n: int) -> Option<Seq<u8>>
    decreases n,
{
    if n <= 0 {
        None
    } else {
        match first_absent(entries, n - 1) {
            Some(path) => Some(path),
            None => if entries[n - 1].found is None {
                Some(entries[n - 1].path)
            } else {
                None
            },
        }
    }
}

/// Every input path holds something.
pub open spec fn all_present(entries: Seq<ScanEntryView>) -> bool {
    forall|k: int| 0 <= k < entries.len() ==> (#[trigger] entries[k]).found is Some
}

/// A path is reported exactly where nothing was found under one of the
/// first `n` input paths, and it is the first such path.
pub proof fn lemma_first_absent(entries: Seq<ScanEntryView>, n: int)
    requires
        0 <= n <= entries.len(),
    ensures
        match first_absent(entries, n) {
            Some(path) => exists|k: int|
                0 <= k < n && entries[k].found is None && entries[k].path == path && forall|l: int|
                    0 <= l < k ==> (#[trigger] entries[l]).found is Some,
            None => forall|k: int| 0 <= k < n ==> (#[trigger] entries[k]).found is Some,
        },
    decreases n,
{
    if n > 0 {
        lemma_first_absent(entries, n - 1);
    }
}

/// An absent path below `n` is the one reported for every later bound.
pub proof fn lemma_first_absent_found(entries: Seq<ScanEntryView>, n: int, m: int)
    requires
        n <= m,
        first_absent(entries, n) is Some,
    ensures
        first_absent(entries, m) == first_absent(entries, n),
    decreases m - n,
{
    if n < m {
        lemma_first_absent_found(entries, n, m - 1);
    }
}

/// Those of the first `n` files that are source files, in order.
pub open spec fn sources_among(files: Seq<SourceUnitView>, n: int) -> Seq<SourceUnitView>
    decreases n,
{
    if n <= 0 {
        Seq::empty()
    } else if is_source(files[n - 1].path) {
        sources_among(files, n - 1).push(files[n - 1])
    } else {
        sources_among(files, n - 1)
    }
}

/// The source files found under the first `n` input paths, in order.
pub open spec fn gathered(entries: Seq<ScanEntryView>, n: int) -> Seq<SourceUnitView>
    decreases n,
{
    if n <= 0 {
        Seq::empty()
    } else {
        gathered(entries, n - 1) + match entries[n - 1].found {
            Some(files) => sources_among(files, files.len() as int),
            None => Seq::empty(),
        }
    }
}

impl Ranked for SourceUnit {
    /// Source units are ordered by the depth of their path, then by the
    /// path.
    open spec fn key(v: SourceUnitView) -> SortKey {
        SortKey { major: depth(v.path), text: v.path, minor: 0 }
    }

    fn ranks_before(&self, other: &Self) -> (r: bool) {
        let a = depth_of(self.path.as_slice());
        let b = depth_of(other.path.as_slice());
        a < b || (a == b && comes_before(self.path.as_slice(), other.path.as_slice()))
    }
}

/// What a scan gives: `NotFound` with the first input path under which
/// nothing was found; else `EmptyInput` where no source file was found;
/// else the source files by depth, then path.
pub open spec fn scanned(entries: Seq<ScanEntryView>) -> Result<Seq<SourceUnitView>, SyncErrorView> {
    match first_absent(entries, entries.len() as int) {
        Some(path) => Err(SyncErrorView::NotFound { path }),
        None => {
            let units = gathered(entries, entries.len() as int);
            if units.len() == 0 {
                Err(SyncErrorView::EmptyInput)
            } else {
                Ok(sorted::<SourceUnit>(units))
            }
        },
    }
}

/// Whether a path names a source file.
pub fn is_source_path(path: &[u8]) -> (r: bool)
    ensures
        r == is_source(path@),
{
    let n = path.len();
    n >= 3 && path[n - 3] == DOT && path[n - 2] == LOWER_R && path[n - 1] == LOWER_S
}

/// The depth of a path.
pub fn depth_of(path: &[u8]) -> (r: usize)
    ensures
        r == depth(path@),
{
    let mut count: usize = 0;
    let mut i: usize = 0;
    while i < path.len()
        invariant
            i <= path@.len(),
            count == slashes(path@, i as int),
            count <= i,
        decreases path@.len() - i,
    {
        if path[i] == SLASH {
            count += 1;
        }
        i += 1;
    }
    count
}

/// Decides what is read: fails where an input path holds nothing or no
/// source file is found, and orders the source files by depth, then path.
pub fn scan(entries: &Vec<ScanEntry>) -> (r: Result<Vec<SourceUnit>, SyncError>)
    ensures
        match r {
            Ok(units) => scanned(views(entries@)) == Ok::<Seq<SourceUnitView>, SyncErrorView>(
                views(units@),
            ) && units.len() > 0,
            Err(e) => scanned(views(entries@)) == Err::<Seq<SourceUnitView>, SyncErrorView>(e@),
        },
        r matches Err(SyncError::NotFound { .. }) <==> !all_present(views(entries@)),
        r matches Err(SyncError::EmptyInput) <==> all_present(views(entries@)) && gathered(
            views(entries@),
            entries.len() as int,
        ).len() == 0,
{
    let ghost ev = views(entries@);
    proof {
        lemma_first_absent(ev, ev.len() as int);
    }
    let mut i: usize = 0;
    while i < entries.len()
        invariant
            i <= entries.len(),
            ev == views(entries@),
            first_absent(ev, i as int) is None,
        decreases entries.len() - i,
    {
        assert(ev[i as int] == entries@[i as int]@);
        if entries[i].found.is_none() {
            proof {
                lemma_first_absent_found(ev, i + 1, ev.len() as int);
                lemma_first_absent(ev, ev.len() as int);
            }
            return Err(SyncError::NotFound { path: entries[i].path.clone() });
        }
        i += 1;
    }
    let mut units: Vec<SourceUnit> = Vec::new();
    let mut j: usize = 0;
    assert(views(units@) =~= Seq::<SourceUnitView>::empty());
    while j < entries.len()
        invariant
            j <= entries.len(),
            ev == views(entries@),
            first_absent(ev, ev.len() as int) is None,
            views(units@) == gathered(ev, j as int),
        decreases entries.len() - j,
    {
        assert(ev[j as int] == entries@[j as int]@);
        match &entries[j].found {
            Some(files) => {
                let ghost start = views(units@);
                let ghost fv = views(files@);
                let mut k: usize = 0;
                assert(views(units@) =~= start + sources_among(fv, 0));
                while k < files.len()
                    invariant
                        k <= files.len(),
                        fv == views(files@),
                        views(units@) == start + sources_among(fv, k as int),
                    decreases files.len() - k,
                {
                    if is_source_path(files[k].path.as_slice()) {
                        let ghost before = views(units@);
                        units.push(files[k].clone());
                        assert(views(units@) =~= before.push(files@[k as int]@));
                        assert(before.push(fv[k as int]) =~= start + sources_among(fv, k + 1));
                    }
                    k += 1;
                }
            },
            None => {
                assert(views(units@) =~= gathered(ev, j as int) + Seq::<SourceUnitView>::empty());
            },
        }
        j += 1;
    }
    proof {
        lemma_first_absent(ev, ev.len() as int);
        crate::order::lemma_sorted::<SourceUnit>(views(units@));
    }
    if units.len() == 0 {
        return Err(SyncError::EmptyInput);
    }
    Ok(sort(units))
}

} // verus!
