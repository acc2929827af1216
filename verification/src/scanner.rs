//! Searching a directory tree for folders with a given name.
//!
//! The search is a state machine: [`scan_directory`] starts it, and each call
//! of [`DirectoryScan::resume`] hands back one action: list a directory, report
//! progress, or finish with the result. The caller performs the listing and
//! hands the answer to the next `resume`. Matching folders are sized (every file
//! below them is counted) and are never searched further for name matches.

use vstd::prelude::*;
use vstd::string::*;

verus! {

// ---------------------------------------------------------------------------
// Public data
// ---------------------------------------------------------------------------

/// A progress report of a running scan.
pub enum ScanProgress<P> {
    /// A subdirectory of this directory is being examined.
    Scanning(P),
    /// A folder with the searched name was found and sized.
    Found { path: P, size: u64 },
    /// A directory could not be read for a reason other than a missing permission.
    Warning(String),
}

/// The result of a finished scan.
pub struct ScanOutput<P> {
    /// The sum of the sizes of all found folders.
    pub total_size: u64,
    /// The found folders, in the order in which they were found.
    pub found_folders: Vec<P>,
}

/// What a directory entry turned out to be (following symbolic links).
#[derive(Clone, Copy, Debug, PartialEq, Eq, Structural)]
pub enum EntryKind {
    Directory,
    File,
    Other,
}

/// One entry of a directory listing.
pub struct EntryInfo<P> {
    /// Where the entry lives.
    pub path: P,
    /// Whether the entry is a directory, a regular file, or neither.
    pub kind: EntryKind,
    /// The entry's final name component, converted lossily to text.
    pub name: Option<String>,
    /// The entry's length in bytes, when it was asked for and could be read.
    pub len: Option<u64>,
}

/// The answer to a listing request.
pub enum Listing<P> {
    /// The path is not a directory.
    NotADirectory,
    /// Reading the directory was refused for lack of permission.
    PermissionDenied,
    /// Reading the directory failed for another reason.
    Failed { path_display: String, error: String },
    /// The directory's entries; `None` stands for an entry that could not be read.
    Entries(Vec<Option<EntryInfo<P>>>),
}

/// What a scan asks its driver to list.
pub enum ScanRequest<P> {
    /// List a directory that is searched for matching folder names (first
    /// checking that it is a directory); among its entries only directories
    /// need to be told apart.
    ListForScan(P),
    /// List a directory below a found folder, to add up file sizes
    /// (file lengths are needed).
    ListForSize(P),
}

/// One step of a scan.
pub enum ScanAction<P> {
    /// The driver must list this directory and hand the listing to the next `resume`.
    Request(ScanRequest<P>),
    /// A progress report to pass on.
    Report(ScanProgress<P>),
    /// The scan is over.
    Finished(ScanOutput<P>),
}

// ---------------------------------------------------------------------------
// Mathematical views
// ---------------------------------------------------------------------------

pub enum ProgressView<P> {
    Scanning(P),
    Found { path: P, size: u64 },
    Warning(Seq<char>),
}

pub struct EntryView<P> {
    pub path: P,
    pub kind: EntryKind,
    pub name: Option<Seq<char>>,
    pub len: Option<u64>,
}

pub enum ListingView<P> {
    NotADirectory,
    PermissionDenied,
    Failed { path_display: Seq<char>, error: Seq<char> },
    Entries(Seq<Option<EntryView<P>>>),
}

pub enum ActionView<P> {
    Request(ScanRequest<P>),
    Report(ProgressView<P>),
    Finished { total_size: u64, found_folders: Seq<P> },
}

impl<P> View for ScanProgress<P> {
    type V = ProgressView<P>;

    open spec fn view(&self) -> ProgressView<P> {
        match self {
            ScanProgress::Scanning(p) => ProgressView::Scanning(*p),
            ScanProgress::Found { path, size } => ProgressView::Found { path: *path, size: *size },
            ScanProgress::Warning(m) => ProgressView::Warning(m@),
        }
    }
}

impl<P> View for EntryInfo<P> {
    type V = EntryView<P>;

    open spec fn view(&self) -> EntryView<P> {
        EntryView {
            path: self.path,
            kind: self.kind,
            name: match self.name {
                Some(n) => Some(n@),
                None => None,
            },
            len: self.len,
        }
    }
}

/// The views of a sequence of possibly unreadable entries.
pub open spec fn entry_views<P>(entries: Seq<Option<EntryInfo<P>>>) -> Seq<Option<EntryView<P>>> {
    entries.map_values(
        |e: Option<EntryInfo<P>>|
            match e {
                Some(info) => Some(info@),
                None => None,
            },
    )
}

impl<P> View for Listing<P> {
    type V = ListingView<P>;

    open spec fn view(&self) -> ListingView<P> {
        match self {
            Listing::NotADirectory => ListingView::NotADirectory,
            Listing::PermissionDenied => ListingView::PermissionDenied,
            Listing::Failed { path_display, error } => ListingView::Failed {
                path_display: path_display@,
                error: error@,
            },
            Listing::Entries(v) => ListingView::Entries(entry_views(v@)),
        }
    }
}

impl<P> View for ScanAction<P> {
    type V = ActionView<P>;

    open spec fn view(&self) -> ActionView<P> {
        match self {
            ScanAction::Request(r) => ActionView::Request(*r),
            ScanAction::Report(p) => ActionView::Report(p@),
            ScanAction::Finished(out) => ActionView::Finished {
                total_size: out.total_size,
                found_folders: out.found_folders@,
            },
        }
    }
}

/// The view of an optional listing.
pub open spec fn reply_view<P>(reply: Option<Listing<P>>) -> Option<ListingView<P>> {
    match reply {
        Some(l) => Some(l@),
        None => None,
    }
}

// ---------------------------------------------------------------------------
// What a listing contributes
// ---------------------------------------------------------------------------

/// A subdirectory met while searching: its path, and whether its name matches
/// the searched name (`None` when it has no name).
pub struct Target<P> {
    pub path: P,
    pub name_matches: Option<bool>,
}

impl<P: Copy> Clone for ScanRequest<P> {
    fn clone(&self) -> (r: Self)
        ensures
            r == *self,
    {
        *self
    }
}

impl<P: Copy> Copy for ScanRequest<P> {

}

impl<P: Copy> Clone for Target<P> {
    fn clone(&self) -> (r: Self)
        ensures
            r == *self,
    {
        *self
    }
}

impl<P: Copy> Copy for Target<P> {

}

/// The subdirectories of a listing that the search will visit, in listing order.
pub open spec fn scan_targets<P>(entries: Seq<Option<EntryView<P>>>, search: Seq<char>) -> Seq<Target<P>>
    decreases entries.len(),
{
    if entries.len() == 0 {
        Seq::empty()
    } else {
        let rest = scan_targets(entries.drop_last(), search);
        match entries.last() {
            Some(e) => if e.kind == EntryKind::Directory {
                rest.push(
                    Target {
                        path: e.path,
                        name_matches: match e.name {
                            Some(n) => Some(n == search),
                            None => None,
                        },
                    },
                )
            } else {
                rest
            },
            None => rest,
        }
    }
}

/// The total length of the readable regular files of a listing.
pub open spec fn file_bytes<P>(entries: Seq<Option<EntryView<P>>>) -> nat
    decreases entries.len(),
{
    if entries.len() == 0 {
        0
    } else {
        let rest = file_bytes(entries.drop_last());
        match entries.last() {
            Some(e) => if e.kind == EntryKind::File {
                match e.len {
                    Some(l) => rest + l as nat,
                    None => rest,
                }
            } else {
                rest
            },
            None => rest,
        }
    }
}

/// The paths of the subdirectories of a listing, in listing order.
pub open spec fn subdirectories<P>(entries: Seq<Option<EntryView<P>>>) -> Seq<P>
    decreases entries.len(),
{
    if entries.len() == 0 {
        Seq::empty()
    } else {
        let rest = subdirectories(entries.drop_last());
        match entries.last() {
            Some(e) => if e.kind == EntryKind::Directory {
                rest.push(e.path)
            } else {
                rest
            },
            None => rest,
        }
    }
}

/// The text of the warning for a directory that could not be read.
pub open spec fn warning_text(path_display: Seq<char>, error: Seq<char>) -> Seq<char> {
    "Cannot read directory "@ + path_display + ": "@ + error
}

fn collect_targets<P: Copy>(entries: &Vec<Option<EntryInfo<P>>>, search: &String) -> (r: Vec<Target<P>>)
    ensures
        r@ == scan_targets(entry_views(entries@), search@),
{
    let mut r: Vec<Target<P>> = Vec::new();
    let ghost views = entry_views(entries@);
    for i in 0..entries.len()
        invariant
            views == entry_views(entries@),
            r@ == scan_targets(views.take(i as int), search@),
    {
        assert(views.take(i + 1).drop_last() =~= views.take(i as int));
        match &entries[i] {
            Some(e) => {
                if e.kind == EntryKind::Directory {
                    let name_matches = match &e.name {
                        Some(n) => Some(n.eq(search)),
                        None => None,
                    };
                    r.push(Target { path: e.path, name_matches });
                }
            },
            None => {},
        }
    }
    assert(views.take(entries@.len() as int) =~= views);
    r
}

fn queue_subdirectories<P: Copy>(entries: &Vec<Option<EntryInfo<P>>>, pending: &mut Vec<P>)
    ensures
        final(pending)@ == old(pending)@ + subdirectories(entry_views(entries@)),
{
    let ghost views = entry_views(entries@);
    let ghost start = pending@;
    for i in 0..entries.len()
        invariant
            views == entry_views(entries@),
            pending@ == start + subdirectories(views.take(i as int)),
    {
        assert(views.take(i + 1).drop_last() =~= views.take(i as int));
        match &entries[i] {
            Some(e) => {
                if e.kind == EntryKind::Directory {
                    pending.push(e.path);
                }
            },
            None => {},
        }
    }
    assert(views.take(entries@.len() as int) =~= views);
}

/// The files of a prefix of a listing weigh no more than the whole listing.
pub proof fn lemma_file_bytes_prefix<P>(entries: Seq<Option<EntryView<P>>>, k: int)
    requires
        0 <= k <= entries.len(),
    ensures
        file_bytes(entries.take(k)) <= file_bytes(entries),
    decreases entries.len(),
{
    if k < entries.len() {
        assert(entries.drop_last().take(k) =~= entries.take(k));
        lemma_file_bytes_prefix(entries.drop_last(), k);
    } else {
        assert(entries.take(k) =~= entries);
    }
}

fn warning_message(path_display: &String, error: &String) -> (r: String)
    ensures
        r@ == warning_text(path_display@, error@),
{
    let mut m = String::from_str("Cannot read directory ");
    m.append(path_display.as_str());
    m.append(": ");
    m.append(error.as_str());
    m
}


// ---------------------------------------------------------------------------
// The scan state machine
// ---------------------------------------------------------------------------

/// A directory whose listing is being worked through.
pub struct FrameView<P> {
    pub dir: P,
    /// The subdirectories not yet visited, in listing order.
    pub targets: Seq<Target<P>>,
}

/// A found folder whose size is being added up.
pub struct SizeJobView<P> {
    pub target: P,
    /// Bytes counted so far.
    pub size: u64,
    /// Directories still to list; the last one is listed next.
    pub pending: Seq<P>,
}

/// The mathematical state of a scan.
pub struct ScanState<P> {
    pub search: Seq<char>,
    pub total_size: u64,
    pub found: Seq<P>,
    /// The directories being searched, innermost last.
    pub frames: Seq<FrameView<P>>,
    /// A subdirectory whose `Scanning` report has been given and which is handled next.
    pub current: Option<Target<P>>,
    pub sizing: Option<SizeJobView<P>>,
    /// The request whose answer the next `resume` receives.
    pub awaiting: Option<ScanRequest<P>>,
    pub finished: bool,
}

/// The states that a scan can reach.
pub open spec fn scan_inv<P>(s: ScanState<P>) -> bool {
    &&& (s.sizing is Some <==> (s.awaiting is Some && s.awaiting->0 is ListForSize))
    &&& (s.sizing is Some ==> {
        &&& s.sizing->0.pending.len() > 0
        &&& s.awaiting == Some(ScanRequest::ListForSize(s.sizing->0.pending.last()))
        &&& s.current is None
    })
    &&& (s.awaiting is Some && s.awaiting->0 is ListForScan ==> s.current is None)
    &&& s.finished ==> s.awaiting is None && s.sizing is None
}

/// Subdirectories left to report, plus one per open frame.
pub open spec fn frames_work<P>(frames: Seq<FrameView<P>>) -> nat
    decreases frames.len(),
{
    if frames.len() == 0 {
        0
    } else {
        frames_work(frames.drop_last()) + frames.last().targets.len() + 1
    }
}

pub open spec fn work_left<P>(s: ScanState<P>) -> nat {
    frames_work(s.frames) + if s.current is Some { 1nat } else { 0nat }
}

/// Moves the scan forward without new information until it has an action.
pub open spec fn advance<P>(s: ScanState<P>) -> (ScanState<P>, ActionView<P>)
    decreases work_left(s),
{
    if s.current is Some {
        let t = s.current->0;
        let s1 = ScanState { current: None, ..s };
        match t.name_matches {
            None => advance(s1),
            Some(true) => (
                ScanState {
                    sizing: Some(SizeJobView { target: t.path, size: 0, pending: seq![t.path] }),
                    awaiting: Some(ScanRequest::ListForSize(t.path)),
                    ..s1
                },
                ActionView::Request(ScanRequest::ListForSize(t.path)),
            ),
            Some(false) => (
                ScanState { awaiting: Some(ScanRequest::ListForScan(t.path)), ..s1 },
                ActionView::Request(ScanRequest::ListForScan(t.path)),
            ),
        }
    } else if s.frames.len() > 0 {
        let top = s.frames.last();
        if top.targets.len() > 0 {
            (
                ScanState {
                    frames: s.frames.drop_last().push(
                        FrameView { dir: top.dir, targets: top.targets.drop_first() },
                    ),
                    current: Some(top.targets[0]),
                    ..s
                },
                ActionView::Report(ProgressView::Scanning(top.dir)),
            )
        } else {
            advance(ScanState { frames: s.frames.drop_last(), ..s })
        }
    } else {
        (
            ScanState { finished: true, found: Seq::empty(), ..s },
            ActionView::Finished { total_size: s.total_size, found_folders: s.found },
        )
    }
}

/// The entries of a listing answer; an answer without entries counts as an empty listing.
pub open spec fn listed_entries<P>(reply: Option<ListingView<P>>) -> Seq<Option<EntryView<P>>> {
    match reply {
        Some(ListingView::Entries(es)) => es,
        _ => Seq::empty(),
    }
}

/// The size of the running size job after a listing answer.
pub open spec fn sized_after<P>(s: ScanState<P>, reply: Option<ListingView<P>>) -> nat {
    s.sizing->0.size as nat + file_bytes(listed_entries(reply))
}

/// The directories still to list for the running size job after a listing answer.
pub open spec fn pending_after<P>(s: ScanState<P>, reply: Option<ListingView<P>>) -> Seq<P> {
    s.sizing->0.pending.drop_last() + subdirectories(listed_entries(reply))
}

/// A listing answer keeps every count within `u64`.
pub open spec fn reply_fits<P>(s: ScanState<P>, reply: Option<ListingView<P>>) -> bool {
    (s.awaiting is Some && s.awaiting->0 is ListForSize) ==> {
        &&& sized_after(s, reply) <= u64::MAX
        &&& pending_after(s, reply).len() == 0 ==> s.total_size + sized_after(s, reply) <= u64::MAX
    }
}

/// One step of a scan: take in the answer to the last request (if one was made)
/// and produce the next action.
pub open spec fn resume<P>(s: ScanState<P>, reply: Option<ListingView<P>>) -> (ScanState<P>, ActionView<P>) {
    match s.awaiting {
        None => advance(s),
        Some(ScanRequest::ListForScan(d)) => {
            let s1 = ScanState { awaiting: None, ..s };
            match reply {
                Some(ListingView::Failed { path_display, error }) => (
                    s1,
                    ActionView::Report(ProgressView::Warning(warning_text(path_display, error))),
                ),
                Some(ListingView::Entries(es)) => advance(
                    ScanState {
                        frames: s1.frames.push(FrameView { dir: d, targets: scan_targets(es, s.search) }),
                        ..s1
                    },
                ),
                _ => advance(s1),
            }
        },
        Some(ScanRequest::ListForSize(_)) => {
            let job = s.sizing->0;
            let size = sized_after(s, reply);
            let pending = pending_after(s, reply);
            if pending.len() == 0 {
                (
                    ScanState {
                        awaiting: None,
                        sizing: None,
                        total_size: (s.total_size + size) as u64,
                        found: s.found.push(job.target),
                        ..s
                    },
                    ActionView::Report(ProgressView::Found { path: job.target, size: size as u64 }),
                )
            } else {
                (
                    ScanState {
                        awaiting: Some(ScanRequest::ListForSize(pending.last())),
                        sizing: Some(SizeJobView { target: job.target, size: size as u64, pending }),
                        ..s
                    },
                    ActionView::Request(ScanRequest::ListForSize(pending.last())),
                )
            }
        },
    }
}

/// The state in which a scan of `root` for folders named `search` starts: the root is
/// handled like a subdirectory whose name does not match.
pub open spec fn initial_state<P>(root: P, search: Seq<char>) -> ScanState<P> {
    ScanState {
        search,
        total_size: 0,
        found: Seq::empty(),
        frames: Seq::empty(),
        current: Some(Target { path: root, name_matches: Some(false) }),
        sizing: None,
        awaiting: None,
        finished: false,
    }
}

struct Frame<P> {
    dir: P,
    targets: Vec<Target<P>>,
    next: usize,
}

struct SizeJob<P> {
    target: P,
    count: DirSize<P>,
}

impl<P> Frame<P> {
    spec fn view(&self) -> FrameView<P> {
        FrameView { dir: self.dir, targets: self.targets@.skip(self.next as int) }
    }
}

impl<P> SizeJob<P> {
    spec fn view(&self) -> SizeJobView<P> {
        SizeJobView { target: self.target, size: self.count@.size, pending: self.count@.pending }
    }
}

/// Every open frame's cursor lies within its subdirectories.
spec fn frames_bounded<P>(frames: Seq<Frame<P>>) -> bool {
    forall|i: int| 0 <= i < frames.len() ==> #[trigger] frames[i].next <= frames[i].targets@.len()
}

proof fn lemma_frames_bounded_drop_last<P>(frames: Seq<Frame<P>>)
    requires
        frames_bounded(frames),
        frames.len() > 0,
    ensures
        frames_bounded(frames.drop_last()),
        frames.last().next <= frames.last().targets@.len(),
{
    assert forall|i: int| 0 <= i < frames.len() - 1 implies #[trigger] frames.drop_last()[i].next
        <= frames.drop_last()[i].targets@.len() by {
        assert(frames.drop_last()[i] == frames[i]);
    }
}

proof fn lemma_frames_bounded_push<P>(frames: Seq<Frame<P>>, f: Frame<P>)
    requires
        frames_bounded(frames),
        f.next <= f.targets@.len(),
    ensures
        frames_bounded(frames.push(f)),
{
    assert forall|i: int| 0 <= i < frames.len() + 1 implies #[trigger] frames.push(f)[i].next
        <= frames.push(f)[i].targets@.len() by {
        if i < frames.len() {
            assert(frames.push(f)[i] == frames[i]);
        }
    }
}

/// A size count in progress.
pub struct SizeCountView<P> {
    /// Bytes counted so far.
    pub size: u64,
    /// Directories still to list; the last one is listed next.
    pub pending: Seq<P>,
}

/// A count of the bytes of all files below a directory. Each directory is listed
/// once; its regular files are added, its subdirectories queued, and the most
/// recently queued directory is listed next.
pub struct DirSize<P> {
    size: u64,
    pending: Vec<P>,
}

impl<P> View for DirSize<P> {
    type V = SizeCountView<P>;

    closed spec fn view(&self) -> SizeCountView<P> {
        SizeCountView { size: self.size, pending: self.pending@ }
    }
}

/// A count after the listing of its next directory.
pub open spec fn count_step<P>(c: SizeCountView<P>, es: Seq<Option<EntryView<P>>>) -> SizeCountView<P> {
    SizeCountView {
        size: (c.size + file_bytes(es)) as u64,
        pending: c.pending.drop_last() + subdirectories(es),
    }
}

/// Starts counting the bytes below `root`; its first listing request is for `root`.
pub fn calculate_dir_size<P: Copy>(root: P) -> (r: DirSize<P>)
    ensures
        r@ == (SizeCountView { size: 0, pending: seq![root] }),
{
    let mut pending: Vec<P> = Vec::new();
    pending.push(root);
    assert(pending@ =~= seq![root]);
    DirSize { size: 0, pending }
}

impl<P: Copy> DirSize<P> {
    /// The directory to list next, or `None` when the count is complete.
    pub fn next_dir(&self) -> (r: Option<P>)
        ensures
            r == if self@.pending.len() == 0 {
                None
            } else {
                Some(self@.pending.last())
            },
    {
        if self.pending.len() == 0 {
            None
        } else {
            Some(self.pending[self.pending.len() - 1])
        }
    }

    /// The bytes counted so far; the directory's size once the count is complete.
    pub fn total(&self) -> (r: u64)
        ensures
            r == self@.size,
    {
        self.size
    }

    /// The count after `listing` answered the next request, or `None` when it
    /// would leave `u64`; with it, whether the count is then complete.
    pub fn preview(&self, listing: &Listing<P>) -> (r: Option<(u64, bool)>)
        requires
            self@.pending.len() > 0,
        ensures
            ({
                let es = listed_entries(Some(listing@));
                let next = count_step(self@, es);
                &&& (self@.size + file_bytes(es) <= u64::MAX) <==> r is Some
                &&& r matches Some((size, done)) ==> size == next.size && done == (next.pending.len() == 0)
            }),
    {
        let empty: Vec<Option<EntryInfo<P>>> = Vec::new();
        let es = match listing {
            Listing::Entries(es) => es,
            _ => &empty,
        };
        assert(entry_views(empty@) =~= Seq::empty());
        let (fits, size, dirs) = count_listing(es, self.size);
        if fits {
            Some((size, self.pending.len() == 1 && dirs == 0))
        } else {
            None
        }
    }

    /// Takes in the listing of the next directory: adds its regular files and
    /// queues its subdirectories. A listing that failed counts as empty.
    pub fn take_listing(&mut self, listing: &Listing<P>)
        requires
            old(self)@.pending.len() > 0,
            old(self)@.size + file_bytes(listed_entries(Some(listing@))) <= u64::MAX,
        ensures
            final(self)@ == count_step(old(self)@, listed_entries(Some(listing@))),
    {
        self.pending.pop();
        let empty: Vec<Option<EntryInfo<P>>> = Vec::new();
        let es = match listing {
            Listing::Entries(es) => es,
            _ => &empty,
        };
        assert(entry_views(empty@) =~= Seq::empty());
        let (_, size, _) = count_listing(es, self.size);
        self.size = size;
        queue_subdirectories(es, &mut self.pending);
    }
}

/// A running search for folders with a given name.
pub struct DirectoryScan<P> {
    search: String,
    total_size: u64,
    found_folders: Vec<P>,
    frames: Vec<Frame<P>>,
    current: Option<Target<P>>,
    sizing: Option<SizeJob<P>>,
    awaiting: Option<ScanRequest<P>>,
    finished: bool,
}

impl<P> View for DirectoryScan<P> {
    type V = ScanState<P>;

    closed spec fn view(&self) -> ScanState<P> {
        ScanState {
            search: self.search@,
            total_size: self.total_size,
            found: self.found_folders@,
            frames: self.frames@.map_values(|f: Frame<P>| f.view()),
            current: self.current,
            sizing: match self.sizing {
                Some(job) => Some(job.view()),
                None => None,
            },
            awaiting: self.awaiting,
            finished: self.finished,
        }
    }
}

impl<P: Copy> DirectoryScan<P> {
    /// The scan's internal consistency.
    pub closed spec fn wf(&self) -> bool {
        &&& scan_inv(self@)
        &&& frames_bounded(self.frames@)
    }

    /// Whether the next `resume` must be handed a listing.
    pub fn awaiting_listing(&self) -> (r: bool)
        ensures
            r == self@.awaiting is Some,
    {
        self.awaiting.is_some()
    }

    /// Whether the scan has finished.
    pub fn is_finished(&self) -> (r: bool)
        ensures
            r == self@.finished,
    {
        self.finished
    }

    /// Whether `reply` may be handed to the next `resume`: the scan is running, the
    /// reply answers a request exactly when one is open, and no count leaves `u64`.
    pub fn accepts(&self, reply: &Option<Listing<P>>) -> (r: bool)
        requires
            self.wf(),
        ensures
            r == (!self@.finished && (self@.awaiting is Some <==> reply is Some) && reply_fits(
                self@,
                reply_view(*reply),
            )),
    {
        if self.finished || self.awaiting.is_some() != reply.is_some() {
            return false;
        }
        match self.awaiting {
            Some(ScanRequest::ListForSize(_)) => {
                let job = self.sizing.as_ref().unwrap();
                let listing = reply.as_ref().unwrap();
                match job.count.preview(listing) {
                    None => false,
                    Some((size, done)) => !done || size <= u64::MAX - self.total_size,
                }
            },
            _ => true,
        }
    }

    /// Moves the scan forward until it has an action.
    fn advance_exec(&mut self) -> (action: ScanAction<P>)
        requires
            frames_bounded(old(self).frames@),
            old(self)@.sizing is None,
        ensures
            frames_bounded(final(self).frames@),
            (final(self)@, action@) == advance(old(self)@),
    {
        let ghost target = advance(self@);
        loop
            invariant
                frames_bounded(self.frames@),
                self@.sizing is None,
                advance(self@) == target,
                target == advance(old(self)@),
            decreases work_left(self@),
        {
            match self.current {
                Some(t) => {
                    self.current = None;
                    match t.name_matches {
                        None => {},
                        Some(true) => {
                            self.sizing = Some(SizeJob { target: t.path, count: calculate_dir_size(t.path) });
                            self.awaiting = Some(ScanRequest::ListForSize(t.path));
                            return ScanAction::Request(ScanRequest::ListForSize(t.path));
                        },
                        Some(false) => {
                            self.awaiting = Some(ScanRequest::ListForScan(t.path));
                            return ScanAction::Request(ScanRequest::ListForScan(t.path));
                        },
                    }
                },
                None => {
                    let ghost before = self@;
                    let ghost old_frames = self.frames@;
                    if self.frames.len() == 0 {
                        self.finished = true;
                        let mut out: Vec<P> = Vec::new();
                        std::mem::swap(&mut out, &mut self.found_folders);
                        return ScanAction::Finished(
                            ScanOutput { total_size: self.total_size, found_folders: out },
                        );
                    }
                    proof {
                        lemma_frames_bounded_drop_last(old_frames);
                    }
                    let mut top = self.frames.pop().unwrap();
                    assert(self.frames@.map_values(|f: Frame<P>| f.view()) =~= before.frames.drop_last());
                    assert(top.view() == before.frames.last());
                    if top.next < top.targets.len() {
                        let t = top.targets[top.next];
                        assert(top.targets@.skip(top.next as int)[0] == t);
                        assert(top.targets@.skip(top.next + 1) =~= top.targets@.skip(top.next as int).drop_first());
                        top.next = top.next + 1;
                        let dir = top.dir;
                        self.frames.push(top);
                        assert(self.frames@.map_values(|f: Frame<P>| f.view()) =~= before.frames.drop_last().push(
                            FrameView { dir: dir, targets: before.frames.last().targets.drop_first() },
                        ));
                        self.current = Some(t);
                        proof {
                            lemma_frames_bounded_push(old_frames.drop_last(), top);
                        }
                        return ScanAction::Report(ScanProgress::Scanning(dir));
                    }
                },
            }
        }
    }

    /// Takes in the answer to the last request, if one was made, and returns the
    /// scan's next action.
    pub fn resume(&mut self, reply: Option<Listing<P>>) -> (action: ScanAction<P>)
        requires
            old(self).wf(),
            !old(self)@.finished,
            old(self)@.awaiting is Some <==> reply is Some,
            reply_fits(old(self)@, reply_view(reply)),
        ensures
            final(self).wf(),
            (final(self)@, action@) == resume(old(self)@, reply_view(reply)),
    {
        let ghost s0 = self@;
        let ghost rv = reply_view(reply);
        proof {
            lemma_resume_keeps_inv(s0, rv);
        }
        match self.awaiting {
            None => self.advance_exec(),
            Some(ScanRequest::ListForScan(d)) => {
                self.awaiting = None;
                match reply {
                    Some(Listing::Failed { path_display, error }) => {
                        ScanAction::Report(ScanProgress::Warning(warning_message(&path_display, &error)))
                    },
                    Some(Listing::Entries(es)) => {
                        let targets = collect_targets(&es, &self.search);
                        let ghost before = self.frames@;
                        self.frames.push(Frame { dir: d, targets, next: 0 });
                        assert(targets@.skip(0) =~= targets@);
                        assert(self.frames@.map_values(|f: Frame<P>| f.view()) =~= s0.frames.push(
                            FrameView { dir: d, targets: scan_targets(entry_views(es@), s0.search) },
                        ));
                        proof {
                            lemma_frames_bounded_push(before, Frame { dir: d, targets, next: 0 });
                        }
                        self.advance_exec()
                    },
                    _ => self.advance_exec(),
                }
            },
            Some(ScanRequest::ListForSize(_)) => {
                self.awaiting = None;
                let mut job = self.sizing.take().unwrap();
                let listing = reply.unwrap();
                job.count.take_listing(&listing);
                match job.count.next_dir() {
                    None => {
                        let size = job.count.total();
                        self.total_size = self.total_size + size;
                        self.found_folders.push(job.target);
                        ScanAction::Report(ScanProgress::Found { path: job.target, size })
                    },
                    Some(d) => {
                        self.sizing = Some(job);
                        self.awaiting = Some(ScanRequest::ListForSize(d));
                        ScanAction::Request(ScanRequest::ListForSize(d))
                    },
                }
            },
        }
    }
}

/// Starts a search of the tree below `root` for folders named `search_name`.
///
/// The first action of the scan is a request to list `root`.
pub fn scan_directory<P: Copy>(root: P, search_name: &str) -> (scan: DirectoryScan<P>)
    ensures
        scan.wf(),
        scan@ == initial_state(root, search_name@),
{
    let scan = DirectoryScan {
        search: String::from_str(search_name),
        total_size: 0,
        found_folders: Vec::new(),
        frames: Vec::new(),
        current: Some(Target { path: root, name_matches: Some(false) }),
        sizing: None,
        awaiting: None,
        finished: false,
    };
    assert(scan@.frames =~= Seq::empty());
    assert(scan@.found =~= Seq::empty());
    scan
}

/// What `advance` needs of a state to reach a consistent one.
pub open spec fn advance_ready<P>(s: ScanState<P>) -> bool {
    &&& !s.finished
    &&& s.awaiting is None
    &&& s.sizing is None
}

/// Moving a scan forward always reaches a consistent state.
pub proof fn lemma_advance_keeps_inv<P>(s: ScanState<P>)
    requires
        advance_ready(s),
    ensures
        scan_inv(advance(s).0),
    decreases work_left(s),
{
    if s.current is Some {
        let s1 = ScanState { current: None, ..s };
        if s.current->0.name_matches is None {
            lemma_advance_keeps_inv(s1);
        }
    } else if s.frames.len() > 0 && s.frames.last().targets.len() == 0 {
        lemma_advance_keeps_inv(ScanState { frames: s.frames.drop_last(), ..s });
    }
}

/// Every step of a running scan keeps it consistent.
pub proof fn lemma_resume_keeps_inv<P>(s: ScanState<P>, reply: Option<ListingView<P>>)
    requires
        scan_inv(s),
        !s.finished,
    ensures
        scan_inv(resume(s, reply).0),
{
    match s.awaiting {
        None => lemma_advance_keeps_inv(s),
        Some(ScanRequest::ListForScan(d)) => {
            let s1 = ScanState { awaiting: None, ..s };
            match reply {
                Some(ListingView::Failed { .. }) => {},
                Some(ListingView::Entries(es)) => lemma_advance_keeps_inv(
                    ScanState {
                        frames: s1.frames.push(FrameView { dir: d, targets: scan_targets(es, s.search) }),
                        ..s1
                    },
                ),
                _ => lemma_advance_keeps_inv(s1),
            }
        },
        Some(ScanRequest::ListForSize(_)) => {

        },
    }
}

/// Adds the file lengths of a listing to `size` and counts its subdirectories,
/// stopping with `false` when the sum leaves `u64`.
fn count_listing<P>(entries: &Vec<Option<EntryInfo<P>>>, size: u64) -> (r: (bool, u64, usize))
    ensures
        r.0 == (size + file_bytes(entry_views(entries@)) <= u64::MAX),
        r.0 ==> r.1 == size + file_bytes(entry_views(entries@)),
        r.0 ==> r.2 == subdirectories(entry_views(entries@)).len(),
{
    let mut total = size;
    let mut dirs: usize = 0;
    let ghost views = entry_views(entries@);
    for i in 0..entries.len()
        invariant
            views == entry_views(entries@),
            total == size + file_bytes(views.take(i as int)),
            dirs == subdirectories(views.take(i as int)).len(),
            dirs <= i,
    {
        assert(views.take(i + 1).drop_last() =~= views.take(i as int));
        proof {
            lemma_file_bytes_prefix(views, i as int + 1);
        }
        match &entries[i] {
            Some(e) => {
                if e.kind == EntryKind::File {
                    match e.len {
                        Some(l) => {
                            if l > u64::MAX - total {
                                return (false, 0, 0);
                            }
                            total = total + l;
                        },
                        None => {},
                    }
                } else if e.kind == EntryKind::Directory {
                    dirs = dirs + 1;
                }
            },
            None => {},
        }
    }
    assert(views.take(entries@.len() as int) =~= views);
    (true, total, dirs)
}


// ---------------------------------------------------------------------------
// Deleting found folders
// ---------------------------------------------------------------------------

/// How a batch of folder deletions went.
pub struct DeleteSummary {
    pub deleted: usize,
    pub failed: usize,
}

/// The number of `true` values in a sequence.
pub open spec fn count_true(s: Seq<bool>) -> nat
    decreases s.len(),
{
    if s.len() == 0 {
        0
    } else {
        count_true(s.drop_last()) + if s.last() {
            1nat
        } else {
            0nat
        }
    }
}

/// Tallies the outcomes of deleting folders one by one (`true`: deleted).
/// Every folder is counted exactly once, as deleted or as failed.
pub fn summarize_deletions(outcomes: &[bool]) -> (r: DeleteSummary)
    ensures
        r.deleted == count_true(outcomes@),
        r.failed == outcomes@.len() - count_true(outcomes@),
        r.deleted + r.failed == outcomes@.len(),
{
    let mut deleted: usize = 0;
    let mut failed: usize = 0;
    for i in 0..outcomes.len()
        invariant
            deleted == count_true(outcomes@.take(i as int)),
            deleted + failed == i,
    {
        assert(outcomes@.take(i + 1).drop_last() =~= outcomes@.take(i as int));
        if outcomes[i] {
            deleted = deleted + 1;
        } else {
            failed = failed + 1;
        }
    }
    assert(outcomes@.take(outcomes@.len() as int) =~= outcomes@);
    DeleteSummary { deleted, failed }
}


// ---------------------------------------------------------------------------
// What a listing contributes, entry by entry
// ---------------------------------------------------------------------------

/// The target that the search makes of a directory entry: its name matches
/// exactly when it equals the searched name; an entry without a name has no match
/// flag.
pub open spec fn entry_target<P>(e: EntryView<P>, search: Seq<char>) -> Target<P> {
    Target {
        path: e.path,
        name_matches: if e.name is Some {
            Some(e.name->0 == search)
        } else {
            None
        },
    }
}

/// Whether an entry is a readable directory entry.
pub open spec fn is_directory_entry<P>(e: Option<EntryView<P>>) -> bool {
    e is Some && e->0.kind == EntryKind::Directory
}

proof fn lemma_scan_targets_concat<P>(a: Seq<Option<EntryView<P>>>, b: Seq<Option<EntryView<P>>>, search: Seq<char>)
    ensures
        scan_targets(a + b, search) == scan_targets(a, search) + scan_targets(b, search),
    decreases b.len(),
{
    if b.len() == 0 {
        assert(a + b =~= a);
        assert(scan_targets(a, search) + scan_targets(b, search) =~= scan_targets(a, search));
    } else {
        assert((a + b).drop_last() =~= a + b.drop_last());
        lemma_scan_targets_concat(a, b.drop_last(), search);
        let ta = scan_targets(a, search);
        let tb = scan_targets(b.drop_last(), search);
        assert(forall|t: Target<P>| (ta + tb).push(t) =~= ta + tb.push(t));
    }
}

/// The targets of a listing: none for an empty listing; one per directory entry,
/// whatever its name, and none for any other entry; and those of two listings
/// one after the other are those of the first, then those of the second. A
/// directory is a match exactly when its name equals the searched name, so one
/// whose name only starts with it is searched, not sized.
pub proof fn lemma_scan_targets_laws<P>(
    a: Seq<Option<EntryView<P>>>,
    b: Seq<Option<EntryView<P>>>,
    e: Option<EntryView<P>>,
    search: Seq<char>,
)
    ensures
        scan_targets(Seq::<Option<EntryView<P>>>::empty(), search) == Seq::<Target<P>>::empty(),
        is_directory_entry(e) ==> scan_targets(seq![e], search) == seq![entry_target(e->0, search)],
        !is_directory_entry(e) ==> scan_targets(seq![e], search) == Seq::<Target<P>>::empty(),
        scan_targets(a + b, search) == scan_targets(a, search) + scan_targets(b, search),
{
    let one = seq![e];
    assert(one.drop_last() =~= Seq::<Option<EntryView<P>>>::empty());
    assert(one.last() == e);
    assert(scan_targets(one.drop_last(), search) == Seq::<Target<P>>::empty());
    if is_directory_entry(e) {
        assert(scan_targets(one, search) =~= seq![entry_target(e->0, search)]);
    }
    lemma_scan_targets_concat(a, b, search);
}

proof fn lemma_subdirectories_concat<P>(a: Seq<Option<EntryView<P>>>, b: Seq<Option<EntryView<P>>>)
    ensures
        subdirectories(a + b) == subdirectories(a) + subdirectories(b),
    decreases b.len(),
{
    if b.len() == 0 {
        assert(a + b =~= a);
        assert(subdirectories(a) + subdirectories(b) =~= subdirectories(a));
    } else {
        assert((a + b).drop_last() =~= a + b.drop_last());
        lemma_subdirectories_concat(a, b.drop_last());
        let sa = subdirectories(a);
        let sb = subdirectories(b.drop_last());
        assert(forall|x: P| (sa + sb).push(x) =~= sa + sb.push(x));
    }
}

/// The subdirectories of a listing: none for an empty listing; the path of each
/// directory entry, whatever its name, and nothing for any other entry; and those
/// of two listings one after the other are those of the first, then those of the
/// second. So the size count lists every subdirectory below a folder.
pub proof fn lemma_subdirectories_laws<P>(
    a: Seq<Option<EntryView<P>>>,
    b: Seq<Option<EntryView<P>>>,
    e: Option<EntryView<P>>,
)
    ensures
        subdirectories(Seq::<Option<EntryView<P>>>::empty()) == Seq::<P>::empty(),
        is_directory_entry(e) ==> subdirectories(seq![e]) == seq![e->0.path],
        !is_directory_entry(e) ==> subdirectories(seq![e]) == Seq::<P>::empty(),
        subdirectories(a + b) == subdirectories(a) + subdirectories(b),
{
    let one = seq![e];
    assert(one.drop_last() =~= Seq::<Option<EntryView<P>>>::empty());
    assert(one.last() == e);
    assert(subdirectories(one.drop_last()) == Seq::<P>::empty());
    if is_directory_entry(e) {
        assert(subdirectories(one) =~= seq![e->0.path]);
    }
    lemma_subdirectories_concat(a, b);
}

proof fn lemma_file_bytes_concat<P>(a: Seq<Option<EntryView<P>>>, b: Seq<Option<EntryView<P>>>)
    ensures
        file_bytes(a + b) == file_bytes(a) + file_bytes(b),
    decreases b.len(),
{
    if b.len() == 0 {
        assert(a + b =~= a);
    } else {
        assert((a + b).drop_last() =~= a + b.drop_last());
        lemma_file_bytes_concat(a, b.drop_last());
    }
}

/// The file bytes of a listing: none for an empty listing; the length of each
/// readable regular file and nothing for any other entry; and those of two
/// listings one after the other add up.
pub proof fn lemma_file_bytes_laws<P>(
    a: Seq<Option<EntryView<P>>>,
    b: Seq<Option<EntryView<P>>>,
    e: Option<EntryView<P>>,
)
    ensures
        file_bytes(Seq::<Option<EntryView<P>>>::empty()) == 0,
        file_bytes(seq![e]) == if e is Some && e->0.kind == EntryKind::File && e->0.len is Some {
            e->0.len->0 as nat
        } else {
            0nat
        },
        file_bytes(a + b) == file_bytes(a) + file_bytes(b),
{
    let one = seq![e];
    assert(one.drop_last() =~= Seq::<Option<EntryView<P>>>::empty());
    assert(one.last() == e);
    assert(file_bytes(one.drop_last()) == 0);
    lemma_file_bytes_concat(a, b);
}

proof fn lemma_count_true_concat(a: Seq<bool>, b: Seq<bool>)
    ensures
        count_true(a + b) == count_true(a) + count_true(b),
    decreases b.len(),
{
    if b.len() == 0 {
        assert(a + b =~= a);
    } else {
        assert((a + b).drop_last() =~= a + b.drop_last());
        lemma_count_true_concat(a, b.drop_last());
    }
}

proof fn lemma_count_true_bounds(a: Seq<bool>)
    ensures
        count_true(a) <= a.len(),
        (forall|i: int| 0 <= i < a.len() ==> !a[i]) ==> count_true(a) == 0,
        (forall|i: int| 0 <= i < a.len() ==> a[i]) ==> count_true(a) == a.len(),
    decreases a.len(),
{
    if a.len() > 0 {
        lemma_count_true_bounds(a.drop_last());
        assert(forall|i: int| 0 <= i < a.len() - 1 ==> a.drop_last()[i] == a[i]);
    }
}

/// The number of deleted folders: none of no outcomes; one for a successful
/// deletion and none for a failed one; and those of two batches add up. In
/// particular a failed first deletion is never counted as deleted.
pub proof fn lemma_count_true_laws(a: Seq<bool>, b: Seq<bool>, x: bool)
    ensures
        count_true(Seq::<bool>::empty()) == 0,
        count_true(seq![x]) == if x { 1nat } else { 0nat },
        count_true(a + b) == count_true(a) + count_true(b),
        count_true(a) <= a.len(),
        (forall|i: int| 0 <= i < a.len() ==> !a[i]) ==> count_true(a) == 0,
        (forall|i: int| 0 <= i < a.len() ==> a[i]) ==> count_true(a) == a.len(),
{
    let one = seq![x];
    assert(one.drop_last() =~= Seq::<bool>::empty());
    assert(one.last() == x);
    assert(count_true(one) == count_true(one.drop_last()) + if one.last() { 1nat } else { 0nat });
    lemma_count_true_concat(a, b);
    lemma_count_true_bounds(a);
}

} // verus!
