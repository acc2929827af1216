//! What a scan must report for a given directory tree, and the proof that the
//! scan state machine, answered from that tree, reports exactly that.
//!
//! The tree is described by the listing of every path. A rank that decreases
//! from each directory to each of its subdirectories makes the tree finite.

use vstd::prelude::*;
use crate::scanner::{
    advance, advance_ready, count_step, file_bytes, SizeCountView, initial_state, lemma_resume_keeps_inv, listed_entries,
    pending_after, reply_fits, resume, scan_inv, scan_targets, sized_after, subdirectories,
    warning_text, work_left, ActionView, EntryKind, EntryView, FrameView, ListingView, ProgressView,
    ScanRequest, ScanState, Target,
};

verus! {

/// A finite directory tree.
#[verifier::reject_recursive_types(P)]
pub struct FsModel<P> {
    /// The answer a listing of each path gives.
    pub listing: Map<P, ListingView<P>>,
    /// Decreases from every directory to each of its subdirectories.
    pub rank: Map<P, nat>,
    /// Exceeds every rank.
    pub height: nat,
}

/// The entries listed for `p` (none when the listing is not a list of entries).
pub open spec fn listed<P>(m: FsModel<P>, p: P) -> Seq<Option<EntryView<P>>> {
    listed_entries(Some(m.listing[p]))
}

/// An entry that is a readable directory.
pub open spec fn is_subdir_entry<P>(e: Option<EntryView<P>>) -> bool {
    e is Some && e->0.kind == EntryKind::Directory
}

/// Every listed path has a rank below the height, and every subdirectory of a
/// listed directory is listed too, with a smaller rank.
pub open spec fn model_wf<P>(m: FsModel<P>) -> bool {
    &&& forall|p: P| #[trigger] m.listing.dom().contains(p) ==> m.rank.dom().contains(p) && m.rank[p] < m.height
    &&& forall|p: P, i: int|
        m.listing.dom().contains(p) && 0 <= i < listed(m, p).len() && is_subdir_entry(
            #[trigger] listed(m, p)[i],
        ) ==> {
            &&& m.listing.dom().contains(listed(m, p)[i]->0.path)
            &&& m.rank[listed(m, p)[i]->0.path] < m.rank[p]
        }
}

/// The bytes of all files below `p`, as the size count adds them up.
pub open spec fn dir_size<P>(m: FsModel<P>, p: P) -> nat
    decreases m.rank[p], subdirectories(listed(m, p)).len() + 1,
{
    file_bytes(listed(m, p)) + dirs_size(m, subdirectories(listed(m, p)), m.rank[p])
}

/// The bytes below each of `ps` whose rank is under `bound`, added up.
pub open spec fn dirs_size<P>(m: FsModel<P>, ps: Seq<P>, bound: nat) -> nat
    decreases bound, ps.len(),
{
    if ps.len() == 0 {
        0
    } else {
        dirs_size(m, ps.drop_last(), bound) + if m.rank[ps.last()] < bound {
            dir_size(m, ps.last())
        } else {
            0
        }
    }
}

/// The number of directories listed while sizing `p` (itself included).
pub open spec fn dir_nodes<P>(m: FsModel<P>, p: P) -> nat
    decreases m.rank[p], subdirectories(listed(m, p)).len() + 1,
{
    1 + dirs_nodes(m, subdirectories(listed(m, p)), m.rank[p])
}

/// The directories listed while sizing each of `ps` whose rank is under `bound`.
pub open spec fn dirs_nodes<P>(m: FsModel<P>, ps: Seq<P>, bound: nat) -> nat
    decreases bound, ps.len(),
{
    if ps.len() == 0 {
        0
    } else {
        dirs_nodes(m, ps.drop_last(), bound) + if m.rank[ps.last()] < bound {
            dir_nodes(m, ps.last())
        } else {
            0
        }
    }
}

/// What a stretch of a scan does: the progress it reports, the folders it finds,
/// the bytes it adds to the total, and the number of actions it takes.
#[verifier::ext_equal]
pub struct ScanTrace<P> {
    pub reports: Seq<ProgressView<P>>,
    pub found: Seq<P>,
    pub bytes: nat,
    pub steps: nat,
}

pub open spec fn no_trace<P>() -> ScanTrace<P> {
    ScanTrace { reports: Seq::empty(), found: Seq::empty(), bytes: 0, steps: 0 }
}

/// One stretch followed by another.
pub open spec fn then<P>(a: ScanTrace<P>, b: ScanTrace<P>) -> ScanTrace<P> {
    ScanTrace {
        reports: a.reports + b.reports,
        found: a.found + b.found,
        bytes: a.bytes + b.bytes,
        steps: a.steps + b.steps,
    }
}

/// A single listing request.
pub open spec fn request_step<P>() -> ScanTrace<P> {
    ScanTrace { steps: 1, ..no_trace() }
}

/// A single report that finds nothing.
pub open spec fn report_step<P>(r: ProgressView<P>) -> ScanTrace<P> {
    ScanTrace { reports: seq![r], steps: 1, ..no_trace() }
}

/// Sizing the found folder `target`, with `size` bytes counted and `pending` still
/// to list: the remaining listings, then the `Found` report.
pub open spec fn size_trace<P>(m: FsModel<P>, target: P, size: nat, pending: Seq<P>) -> ScanTrace<P> {
    let bytes = size + dirs_size(m, pending, m.height);
    ScanTrace {
        reports: seq![ProgressView::Found { path: target, size: bytes as u64 }],
        found: seq![target],
        bytes,
        steps: dirs_nodes(m, pending, m.height),
    }
}

/// What searching the directory `d` does once its listing has been asked for:
/// a warning when it cannot be read, nothing when it is not a directory or may
/// not be read, and otherwise a visit of each subdirectory in listing order.
pub open spec fn dir_body<P>(m: FsModel<P>, d: P, search: Seq<char>) -> ScanTrace<P>
    decreases m.rank[d], scan_targets(listed(m, d), search).len() + 1,
{
    match m.listing[d] {
        ListingView::Failed { path_display, error } => report_step(
            ProgressView::Warning(warning_text(path_display, error)),
        ),
        ListingView::Entries(es) => scan_list(m, d, scan_targets(es, search), search, m.rank[d]),
        _ => no_trace(),
    }
}

/// Handling a subdirectory after its `Scanning` report: nothing when it has no
/// name; when its name matches, sizing it (and never searching inside it);
/// otherwise searching it.
pub open spec fn visit<P>(m: FsModel<P>, t: Target<P>, search: Seq<char>) -> ScanTrace<P>
    decreases m.rank[t.path], scan_targets(listed(m, t.path), search).len() + 3,
{
    match t.name_matches {
        None => no_trace(),
        Some(true) => then(request_step(), size_trace(m, t.path, 0, seq![t.path])),
        Some(false) => then(request_step(), dir_body(m, t.path, search)),
    }
}

/// The subdirectories `ts` of `parent`, each reported as `Scanning(parent)` and
/// then visited.
pub open spec fn scan_list<P>(m: FsModel<P>, parent: P, ts: Seq<Target<P>>, search: Seq<char>, bound: nat) -> ScanTrace<P>
    decreases bound, ts.len(),
{
    if ts.len() == 0 {
        no_trace()
    } else {
        let t = ts[0];
        then(
            then(
                report_step(ProgressView::Scanning(parent)),
                if m.rank[t.path] < bound {
                    visit(m, t, search)
                } else {
                    no_trace()
                },
            ),
            scan_list(m, parent, ts.drop_first(), search, bound),
        )
    }
}

/// A whole search of `root` for folders named `search`.
pub open spec fn scan_dir<P>(m: FsModel<P>, root: P, search: Seq<char>) -> ScanTrace<P> {
    then(request_step(), dir_body(m, root, search))
}


// ---------------------------------------------------------------------------
// Facts about traces and trees
// ---------------------------------------------------------------------------

proof fn lemma_then_assoc<P>(a: ScanTrace<P>, b: ScanTrace<P>, c: ScanTrace<P>)
    ensures
        then(then(a, b), c) == then(a, then(b, c)),
{
    assert(then(then(a, b), c) =~= then(a, then(b, c)));
}

proof fn lemma_then_none<P>(a: ScanTrace<P>)
    ensures
        then(no_trace(), a) == a,
        then(a, no_trace()) == a,
{
    assert(then(no_trace(), a) =~= a);
    assert(then(a, no_trace()) =~= a);
}

/// Every subdirectory visited in a listing is a directory entry of it.
proof fn lemma_scan_targets_source<P>(es: Seq<Option<EntryView<P>>>, search: Seq<char>)
    ensures
        forall|j: int|
            0 <= j < scan_targets(es, search).len() ==> exists|i: int|
                0 <= i < es.len() && is_subdir_entry(#[trigger] es[i]) && es[i]->0.path == (#[trigger] scan_targets(
                    es,
                    search,
                )[j]).path,
    decreases es.len(),
{
    if es.len() > 0 {
        lemma_scan_targets_source(es.drop_last(), search);
        let prev = scan_targets(es.drop_last(), search);
        assert forall|j: int| 0 <= j < scan_targets(es, search).len() implies exists|i: int|
            0 <= i < es.len() && is_subdir_entry(#[trigger] es[i]) && es[i]->0.path == (#[trigger] scan_targets(
                es,
                search,
            )[j]).path by {
            if j < prev.len() {
                assert(scan_targets(es, search)[j] == prev[j]);
                let i = choose|i: int|
                    0 <= i < es.drop_last().len() && is_subdir_entry(#[trigger] es.drop_last()[i])
                        && es.drop_last()[i]->0.path == prev[j].path;
                assert(es[i] == es.drop_last()[i]);
            } else {
                assert(is_subdir_entry(es[es.len() - 1]));
            }
        }
    }
}

/// A listing's entry that is a directory with path `p`.
pub open spec fn has_subdir<P>(es: Seq<Option<EntryView<P>>>, p: P) -> bool {
    exists|i: int| 0 <= i < es.len() && is_subdir_entry(#[trigger] es[i]) && es[i]->0.path == p
}

/// Every subdirectory queued while sizing is a directory entry of the listing.
proof fn lemma_subdirectories_source<P>(es: Seq<Option<EntryView<P>>>)
    ensures
        forall|j: int| 0 <= j < subdirectories(es).len() ==> has_subdir(es, #[trigger] subdirectories(es)[j]),
    decreases es.len(),
{
    if es.len() > 0 {
        lemma_subdirectories_source(es.drop_last());
        let prev = subdirectories(es.drop_last());
        assert forall|j: int| 0 <= j < subdirectories(es).len() implies has_subdir(
            es,
            #[trigger] subdirectories(es)[j],
        ) by {
            if j < prev.len() {
                assert(subdirectories(es)[j] == prev[j]);
                assert(has_subdir(es.drop_last(), prev[j]));
                let i = choose|i: int|
                    0 <= i < es.drop_last().len() && is_subdir_entry(#[trigger] es.drop_last()[i])
                        && es.drop_last()[i]->0.path == prev[j];
                assert(es[i] == es.drop_last()[i]);
            } else {
                assert(is_subdir_entry(es[es.len() - 1]));
            }
        }
    }
}

/// The subdirectories visited in a listed directory are listed, with smaller ranks.
proof fn lemma_targets_in_model<P>(m: FsModel<P>, d: P, search: Seq<char>)
    requires
        model_wf(m),
        m.listing.dom().contains(d),
    ensures
        forall|j: int|
            0 <= j < scan_targets(listed(m, d), search).len() ==> {
                &&& m.listing.dom().contains(#[trigger] scan_targets(listed(m, d), search)[j].path)
                &&& m.rank[scan_targets(listed(m, d), search)[j].path] < m.rank[d]
            },
{
    lemma_scan_targets_source(listed(m, d), search);
    assert forall|j: int| 0 <= j < scan_targets(listed(m, d), search).len() implies {
        &&& m.listing.dom().contains(#[trigger] scan_targets(listed(m, d), search)[j].path)
        &&& m.rank[scan_targets(listed(m, d), search)[j].path] < m.rank[d]
    } by {
        let i = choose|i: int|
            0 <= i < listed(m, d).len() && is_subdir_entry(#[trigger] listed(m, d)[i]) && listed(m, d)[i]->0.path
                == (#[trigger] scan_targets(listed(m, d), search)[j]).path;
    }
}

/// The subdirectories queued while sizing a listed directory are listed, with smaller ranks.
proof fn lemma_subdirectories_in_model<P>(m: FsModel<P>, d: P)
    requires
        model_wf(m),
        m.listing.dom().contains(d),
    ensures
        forall|j: int|
            0 <= j < subdirectories(listed(m, d)).len() ==> {
                &&& m.listing.dom().contains(#[trigger] subdirectories(listed(m, d))[j])
                &&& m.rank[subdirectories(listed(m, d))[j]] < m.rank[d]
            },
{
    lemma_subdirectories_source(listed(m, d));
    assert forall|j: int| 0 <= j < subdirectories(listed(m, d)).len() implies {
        &&& m.listing.dom().contains(#[trigger] subdirectories(listed(m, d))[j])
        &&& m.rank[subdirectories(listed(m, d))[j]] < m.rank[d]
    } by {
        assert(has_subdir(listed(m, d), subdirectories(listed(m, d))[j]));
        let i = choose|i: int|
            0 <= i < listed(m, d).len() && is_subdir_entry(#[trigger] listed(m, d)[i]) && listed(m, d)[i]->0.path
                == subdirectories(listed(m, d))[j];
    }
}

proof fn lemma_dirs_concat<P>(m: FsModel<P>, a: Seq<P>, b: Seq<P>, bound: nat)
    ensures
        dirs_size(m, a + b, bound) == dirs_size(m, a, bound) + dirs_size(m, b, bound),
        dirs_nodes(m, a + b, bound) == dirs_nodes(m, a, bound) + dirs_nodes(m, b, bound),
    decreases b.len(),
{
    if b.len() == 0 {
        assert(a + b =~= a);
    } else {
        assert((a + b).drop_last() =~= a + b.drop_last());
        assert((a + b).last() == b.last());
        lemma_dirs_concat(m, a, b.drop_last(), bound);
    }
}

proof fn lemma_dirs_bound<P>(m: FsModel<P>, ps: Seq<P>, b1: nat, b2: nat)
    requires
        forall|j: int| 0 <= j < ps.len() ==> m.rank[#[trigger] ps[j]] < b1 && m.rank[ps[j]] < b2,
    ensures
        dirs_size(m, ps, b1) == dirs_size(m, ps, b2),
        dirs_nodes(m, ps, b1) == dirs_nodes(m, ps, b2),
    decreases ps.len(),
{
    if ps.len() > 0 {
        assert(ps.last() == ps[ps.len() - 1]);
        assert forall|j: int| 0 <= j < ps.drop_last().len() implies m.rank[#[trigger] ps.drop_last()[j]] < b1
            && m.rank[ps.drop_last()[j]] < b2 by {
            assert(ps.drop_last()[j] == ps[j]);
        }
        lemma_dirs_bound(m, ps.drop_last(), b1, b2);
    }
}


// ---------------------------------------------------------------------------
// What remains of a running scan
// ---------------------------------------------------------------------------

/// What the open frames still do, innermost first.
pub open spec fn frames_rest<P>(m: FsModel<P>, frames: Seq<FrameView<P>>, search: Seq<char>) -> ScanTrace<P>
    decreases frames.len(),
{
    if frames.len() == 0 {
        no_trace()
    } else {
        let f = frames.last();
        then(scan_list(m, f.dir, f.targets, search, m.rank[f.dir]), frames_rest(m, frames.drop_last(), search))
    }
}

/// What the scan does before returning to its open frames.
pub open spec fn state_head<P>(m: FsModel<P>, s: ScanState<P>) -> ScanTrace<P> {
    if s.sizing is Some {
        size_trace(m, s.sizing->0.target, s.sizing->0.size as nat, s.sizing->0.pending)
    } else if s.current is Some {
        visit(m, s.current->0, s.search)
    } else {
        match s.awaiting {
            Some(ScanRequest::ListForScan(d)) => dir_body(m, d, s.search),
            _ => no_trace(),
        }
    }
}

/// Everything a scan in state `s` still does on the tree `m`.
pub open spec fn rest<P>(m: FsModel<P>, s: ScanState<P>) -> ScanTrace<P> {
    then(state_head(m, s), frames_rest(m, s.frames, s.search))
}

/// A frame whose directory and subdirectories are in the tree, the
/// subdirectories with smaller ranks.
pub open spec fn frame_fits<P>(m: FsModel<P>, f: FrameView<P>) -> bool {
    &&& m.listing.dom().contains(f.dir)
    &&& forall|j: int|
        0 <= j < f.targets.len() ==> m.listing.dom().contains(#[trigger] f.targets[j].path) && m.rank[f.targets[j].path]
            < m.rank[f.dir]
}

/// Every path the scan still holds is in the tree.
pub open spec fn run_inv<P>(m: FsModel<P>, s: ScanState<P>) -> bool {
    &&& forall|i: int| 0 <= i < s.frames.len() ==> frame_fits(m, #[trigger] s.frames[i])
    &&& s.current is Some ==> m.listing.dom().contains(s.current->0.path)
    &&& match s.awaiting {
        Some(ScanRequest::ListForScan(d)) => m.listing.dom().contains(d),
        _ => true,
    }
    &&& s.sizing is Some ==> forall|j: int|
        0 <= j < s.sizing->0.pending.len() ==> m.listing.dom().contains(#[trigger] s.sizing->0.pending[j])
}

/// What a single action does.
pub open spec fn emitted<P>(a: ActionView<P>) -> ScanTrace<P> {
    match a {
        ActionView::Request(_) => request_step(),
        ActionView::Report(ProgressView::Found { path, size }) => ScanTrace {
            reports: seq![ProgressView::Found { path, size }],
            found: seq![path],
            bytes: size as nat,
            steps: 1,
        },
        ActionView::Report(r) => report_step(r),
        ActionView::Finished { .. } => no_trace(),
    }
}

/// One step from `s` to `s1` with action `a` does the first part of what remained.
pub open spec fn step_ok<P>(m: FsModel<P>, s: ScanState<P>, s1: ScanState<P>, a: ActionView<P>) -> bool {
    if a is Finished {
        &&& rest(m, s) == no_trace::<P>()
        &&& s1.finished
        &&& a == ActionView::Finished { total_size: s.total_size, found_folders: s.found }
    } else {
        &&& rest(m, s) == then(emitted(a), rest(m, s1))
        &&& run_inv(m, s1)
        &&& !s1.finished
        &&& s1.search == s.search
        &&& s1.total_size == s.total_size + emitted(a).bytes
        &&& s1.found == s.found + emitted(a).found
    }
}

proof fn lemma_advance_step<P>(m: FsModel<P>, s: ScanState<P>)
    requires
        model_wf(m),
        run_inv(m, s),
        advance_ready(s),
    ensures
        step_ok(m, s, advance(s).0, advance(s).1),
    decreases work_left(s),
{
    let fr = frames_rest(m, s.frames, s.search);
    lemma_then_none(fr);
    if s.current is Some {
        let t = s.current->0;
        let s1 = ScanState { current: None, ..s };
        match t.name_matches {
            None => {
                lemma_advance_step(m, s1);
            },
            Some(true) => {
                lemma_then_assoc(request_step(), size_trace(m, t.path, 0, seq![t.path]), fr);
                assert(advance(s).0.found =~= s.found + emitted(advance(s).1).found);
            },
            Some(false) => {
                lemma_then_assoc(request_step(), dir_body(m, t.path, s.search), fr);
                assert(advance(s).0.found =~= s.found + emitted(advance(s).1).found);
            },
        }
    } else if s.frames.len() > 0 {
        let top = s.frames.last();
        assert(frame_fits(m, s.frames[s.frames.len() - 1]));
        let below = frames_rest(m, s.frames.drop_last(), s.search);
        if top.targets.len() > 0 {
            let t = top.targets[0];
            let top2 = FrameView { dir: top.dir, targets: top.targets.drop_first() };
            let frames2 = s.frames.drop_last().push(top2);
            assert(frames2.drop_last() =~= s.frames.drop_last());
            assert(frames2.last() == top2);
            let v = visit(m, t, s.search);
            let rep = report_step(ProgressView::Scanning(top.dir));
            let sl2 = scan_list(m, top.dir, top.targets.drop_first(), s.search, m.rank[top.dir]);
            assert(m.rank[t.path] < m.rank[top.dir]);
            lemma_then_assoc(then(rep, v), sl2, below);
            lemma_then_assoc(rep, v, then(sl2, below));
            assert forall|i: int| 0 <= i < frames2.len() implies frame_fits(m, #[trigger] frames2[i]) by {
                if i < frames2.len() - 1 {
                    assert(frames2[i] == s.frames[i]);
                } else {
                    assert forall|j: int| 0 <= j < top2.targets.len() implies m.listing.dom().contains(
                        #[trigger] top2.targets[j].path,
                    ) && m.rank[top2.targets[j].path] < m.rank[top2.dir] by {
                        assert(top2.targets[j] == top.targets[j + 1]);
                    }
                }
            }
            assert(advance(s).0.found =~= s.found + emitted(advance(s).1).found);
        } else {
            let s1 = ScanState { frames: s.frames.drop_last(), ..s };
            lemma_then_none(below);
            assert forall|i: int| 0 <= i < s1.frames.len() implies frame_fits(m, #[trigger] s1.frames[i]) by {
                assert(s1.frames[i] == s.frames[i]);
            }
            lemma_advance_step(m, s1);
        }
    } else {
        lemma_then_none(no_trace::<P>());
    }
}


/// The tree's answer to a request.
pub open spec fn answer<P>(m: FsModel<P>, request: Option<ScanRequest<P>>) -> Option<ListingView<P>> {
    match request {
        Some(ScanRequest::ListForScan(p)) => Some(m.listing[p]),
        Some(ScanRequest::ListForSize(p)) => Some(m.listing[p]),
        None => None,
    }
}

proof fn lemma_step<P>(m: FsModel<P>, s: ScanState<P>)
    requires
        model_wf(m),
        run_inv(m, s),
        scan_inv(s),
        !s.finished,
        s.total_size + rest(m, s).bytes <= u64::MAX,
    ensures
        reply_fits(s, answer(m, s.awaiting)),
        step_ok(m, s, resume(s, answer(m, s.awaiting)).0, resume(s, answer(m, s.awaiting)).1),
{
    let ans = answer(m, s.awaiting);
    let fr = frames_rest(m, s.frames, s.search);
    lemma_then_none(fr);
    match s.awaiting {
        None => {
            lemma_advance_step(m, s);
        },
        Some(ScanRequest::ListForScan(d)) => {
            let s1 = ScanState { awaiting: None, ..s };
            match m.listing[d] {
                ListingView::Failed { .. } => {
                    assert(resume(s, ans).0.found =~= s.found + emitted(resume(s, ans).1).found);
                },
                ListingView::Entries(es) => {
                    let f = FrameView { dir: d, targets: scan_targets(es, s.search) };
                    let s2 = ScanState { frames: s1.frames.push(f), ..s1 };
                    assert(s2.frames.drop_last() =~= s.frames);
                    assert(s2.frames.last() == f);
                    lemma_targets_in_model(m, d, s.search);
                    assert forall|i: int| 0 <= i < s2.frames.len() implies frame_fits(m, #[trigger] s2.frames[i]) by {
                        if i < s.frames.len() {
                            assert(s2.frames[i] == s.frames[i]);
                        }
                    }
                    lemma_then_none(frames_rest(m, s2.frames, s.search));
                    lemma_advance_step(m, s2);
                },
                _ => {
                    lemma_advance_step(m, s1);
                },
            }
        },
        Some(ScanRequest::ListForSize(d)) => {
            let job = s.sizing->0;
            let es = listed(m, d);
            let subs = subdirectories(es);
            let p0 = job.pending.drop_last();
            let h = m.height;
            assert(job.pending.last() == job.pending[job.pending.len() - 1]);
            assert(m.listing.dom().contains(d));
            assert(job.pending.drop_last() =~= p0);
            lemma_subdirectories_in_model(m, d);
            assert forall|j: int| 0 <= j < subs.len() implies m.rank[#[trigger] subs[j]] < m.rank[d] && m.rank[subs[j]] < h by {
            }
            lemma_dirs_bound(m, subs, m.rank[d], h);
            lemma_dirs_concat(m, p0, subs, h);
            assert(dirs_size(m, job.pending, h) == dirs_size(m, p0, h) + dir_size(m, d));
            assert(dirs_nodes(m, job.pending, h) == dirs_nodes(m, p0, h) + dir_nodes(m, d));
            let new_size = sized_after(s, ans);
            let newp = pending_after(s, ans);
            assert(listed_entries(ans) == es);
            assert(newp == p0 + subs);
            assert(new_size + dirs_size(m, newp, h) == job.size + dirs_size(m, job.pending, h));
            assert(dirs_nodes(m, newp, h) + 1 == dirs_nodes(m, job.pending, h));
            if newp.len() == 0 {
                let a = resume(s, ans).1;
                assert(size_trace(m, job.target, job.size as nat, job.pending) =~= emitted(a));
                assert(resume(s, ans).0.found =~= s.found + emitted(a).found);
            } else {
                let old_tr = size_trace(m, job.target, job.size as nat, job.pending);
                let new_tr = size_trace(m, job.target, new_size, newp);
                assert(then(request_step(), new_tr) =~= old_tr);
                lemma_then_assoc(request_step(), new_tr, fr);
                assert forall|j: int| 0 <= j < newp.len() implies m.listing.dom().contains(#[trigger] newp[j]) by {
                    if j < p0.len() {
                        assert(newp[j] == job.pending[j]);
                    } else {
                        assert(newp[j] == subs[j - p0.len()]);
                    }
                }
                assert(resume(s, ans).0.found =~= s.found + emitted(resume(s, ans).1).found);
            }
        },
    }
}

/// The non-request actions of a step.
pub open spec fn visible<P>(a: ActionView<P>) -> Seq<ActionView<P>> {
    if a is Request {
        Seq::empty()
    } else {
        seq![a]
    }
}

/// `n` steps of a scan answered from the tree `m`, stopping when it finishes:
/// the state reached and the reports and final result given on the way.
pub open spec fn run<P>(m: FsModel<P>, s: ScanState<P>, n: nat) -> (ScanState<P>, Seq<ActionView<P>>)
    decreases n,
{
    if n == 0 || s.finished {
        (s, Seq::empty())
    } else {
        let r = resume(s, answer(m, s.awaiting));
        let tail = run(m, r.0, (n - 1) as nat);
        (tail.0, visible(r.1) + tail.1)
    }
}

/// Every one of `n` steps from `s` meets what `resume` requires.
pub open spec fn run_admissible<P>(m: FsModel<P>, s: ScanState<P>, n: nat) -> bool
    decreases n,
{
    n == 0 || s.finished || (scan_inv(s) && reply_fits(s, answer(m, s.awaiting)) && run_admissible(
        m,
        resume(s, answer(m, s.awaiting)).0,
        (n - 1) as nat,
    ))
}

/// Progress reports as actions.
pub open spec fn as_reports<P>(rs: Seq<ProgressView<P>>) -> Seq<ActionView<P>> {
    rs.map_values(|r: ProgressView<P>| ActionView::Report(r))
}

proof fn lemma_run_from<P>(m: FsModel<P>, s: ScanState<P>)
    requires
        model_wf(m),
        run_inv(m, s),
        scan_inv(s),
        !s.finished,
        s.total_size + rest(m, s).bytes <= u64::MAX,
    ensures
        ({
            let t = rest(m, s);
            let r = run(m, s, t.steps + 1);
            &&& r.0.finished
            &&& run_admissible(m, s, t.steps + 1)
            &&& r.1 == as_reports(t.reports).push(
                ActionView::Finished {
                    total_size: (s.total_size + t.bytes) as u64,
                    found_folders: s.found + t.found,
                },
            )
        }),
    decreases rest(m, s).steps,
{
    let ans = answer(m, s.awaiting);
    let s1 = resume(s, ans).0;
    let a = resume(s, ans).1;
    let t = rest(m, s);
    lemma_step(m, s);
    lemma_resume_keeps_inv(s, ans);
    if a is Finished {
        assert(t.steps == 0);
        assert(run(m, s1, 0).1 =~= Seq::<ActionView<P>>::empty());
        assert(as_reports(t.reports) =~= Seq::<ActionView<P>>::empty());
        assert(s.found + t.found =~= s.found);
        assert(run(m, s, 1).1 =~= seq![a]);
        assert(run(m, s, 1).0.finished);
        assert(run_admissible(m, s1, 0));
        assert(run_admissible(m, s, 1));
    } else {
        let t1 = rest(m, s1);
        assert(t1.steps + 1 == t.steps);
        lemma_run_from(m, s1);
        assert(visible(a) =~= as_reports(emitted(a).reports));
        assert(as_reports(t.reports) =~= as_reports(emitted(a).reports) + as_reports(t1.reports));
        assert(s1.found + t1.found =~= s.found + t.found);
        assert(run(m, s, t.steps + 1).1 =~= visible(a) + run(m, s1, t1.steps + 1).1);
        assert(run(m, s, t.steps + 1).0 == run(m, s1, t1.steps + 1).0);
        assert(run_admissible(m, s, t.steps + 1));
        assert((s1.total_size + t1.bytes) as u64 == (s.total_size + t.bytes) as u64);
    }
}

/// The scan state machine, answered from a finite tree, gives exactly the reports
/// and the result of searching it: each subdirectory is reported as `Scanning`
/// its parent before it is handled; a subdirectory whose name matches is sized
/// by every file below it, reported as `Found`, and not searched further; one
/// that does not match is searched in turn; a directory that cannot be read for
/// a reason other than permission gives a `Warning`. The scan then finishes with
/// the total size and the found folders in the order found. Every step meets
/// what `resume` requires, provided the total fits in `u64`.
pub proof fn lemma_scan_follows_model<P>(m: FsModel<P>, root: P, search: Seq<char>)
    requires
        model_wf(m),
        m.listing.dom().contains(root),
        scan_dir(m, root, search).bytes <= u64::MAX,
    ensures
        ({
            let t = scan_dir(m, root, search);
            let r = run(m, initial_state(root, search), t.steps + 1);
            &&& r.0.finished
            &&& run_admissible(m, initial_state(root, search), t.steps + 1)
            &&& r.1 == as_reports(t.reports).push(
                ActionView::Finished { total_size: t.bytes as u64, found_folders: t.found },
            )
        }),
{
    let s = initial_state(root, search);
    let t = scan_dir(m, root, search);
    lemma_then_none(t);
    assert(rest(m, s) == t);
    lemma_run_from(m, s);
    assert(s.found + t.found =~= t.found);
}


// ---------------------------------------------------------------------------
// Counting the size of one directory
// ---------------------------------------------------------------------------

/// Listing the last pending directory replaces it by its subdirectories and
/// moves its file bytes into the count.
proof fn lemma_pending_step<P>(m: FsModel<P>, pending: Seq<P>)
    requires
        model_wf(m),
        pending.len() > 0,
        forall|j: int| 0 <= j < pending.len() ==> m.listing.dom().contains(#[trigger] pending[j]),
    ensures
        ({
            let d = pending.last();
            let es = listed(m, d);
            let next = pending.drop_last() + subdirectories(es);
            &&& dirs_size(m, pending, m.height) == file_bytes(es) + dirs_size(m, next, m.height)
            &&& dirs_nodes(m, pending, m.height) == 1 + dirs_nodes(m, next, m.height)
            &&& forall|j: int| 0 <= j < next.len() ==> m.listing.dom().contains(#[trigger] next[j])
        }),
{
    let d = pending.last();
    let es = listed(m, d);
    let subs = subdirectories(es);
    let p0 = pending.drop_last();
    let h = m.height;
    let next = p0 + subs;
    assert(pending.last() == pending[pending.len() - 1]);
    assert(m.listing.dom().contains(d));
    assert(m.rank[d] < h);
    assert(dirs_size(m, pending, h) == dirs_size(m, p0, h) + dir_size(m, d));
    assert(dirs_nodes(m, pending, h) == dirs_nodes(m, p0, h) + dir_nodes(m, d));
    lemma_subdirectories_in_model(m, d);
    assert forall|j: int| 0 <= j < subs.len() implies m.rank[#[trigger] subs[j]] < m.rank[d] && m.rank[subs[j]] < h by {
    }
    lemma_dirs_bound(m, subs, m.rank[d], h);
    lemma_dirs_concat(m, p0, subs, h);
    assert forall|j: int| 0 <= j < next.len() implies m.listing.dom().contains(#[trigger] next[j]) by {
        if j < p0.len() {
            assert(next[j] == pending[j]);
        } else {
            assert(next[j] == subs[j - p0.len()]);
        }
    }
}

/// `n` listings of a size count answered from the tree `m`, stopping when it is complete.
pub open spec fn size_run<P>(m: FsModel<P>, c: SizeCountView<P>, n: nat) -> SizeCountView<P>
    decreases n,
{
    if n == 0 || c.pending.len() == 0 {
        c
    } else {
        size_run(m, count_step(c, listed(m, c.pending.last())), (n - 1) as nat)
    }
}

/// Every one of `n` listings from `c` keeps the count within `u64`, as
/// `take_listing` requires.
pub open spec fn size_run_admissible<P>(m: FsModel<P>, c: SizeCountView<P>, n: nat) -> bool
    decreases n,
{
    n == 0 || c.pending.len() == 0 || (c.size + file_bytes(listed(m, c.pending.last())) <= u64::MAX
        && size_run_admissible(m, count_step(c, listed(m, c.pending.last())), (n - 1) as nat))
}

proof fn lemma_size_run_from<P>(m: FsModel<P>, c: SizeCountView<P>)
    requires
        model_wf(m),
        forall|j: int| 0 <= j < c.pending.len() ==> m.listing.dom().contains(#[trigger] c.pending[j]),
        c.size + dirs_size(m, c.pending, m.height) <= u64::MAX,
    ensures
        ({
            let n = dirs_nodes(m, c.pending, m.height);
            let r = size_run(m, c, n);
            &&& r.pending.len() == 0
            &&& r.size == c.size + dirs_size(m, c.pending, m.height)
            &&& size_run_admissible(m, c, n)
        }),
    decreases dirs_nodes(m, c.pending, m.height),
{
    if c.pending.len() > 0 {
        lemma_pending_step(m, c.pending);
        let c1 = count_step(c, listed(m, c.pending.last()));
        lemma_size_run_from(m, c1);
    }
}

/// Counting the size of a directory of a finite tree, each listing answered from
/// the tree, lists `dir_nodes(m, root)` directories and ends with the bytes of
/// every regular file below it: `dir_size(m, root)`. Every listing meets what
/// `take_listing` requires, provided that size fits in `u64`.
pub proof fn lemma_size_follows_model<P>(m: FsModel<P>, root: P)
    requires
        model_wf(m),
        m.listing.dom().contains(root),
        dir_size(m, root) <= u64::MAX,
    ensures
        ({
            let start = SizeCountView { size: 0, pending: seq![root] };
            let r = size_run(m, start, dir_nodes(m, root));
            &&& r.pending.len() == 0
            &&& r.size == dir_size(m, root)
            &&& size_run_admissible(m, start, dir_nodes(m, root))
        }),
{
    let start = SizeCountView { size: 0u64, pending: seq![root] };
    assert(start.pending.drop_last() =~= Seq::<P>::empty());
    assert(m.rank[root] < m.height);
    assert(dirs_size(m, Seq::<P>::empty(), m.height) == 0);
    assert(dirs_nodes(m, Seq::<P>::empty(), m.height) == 0);
    assert(dirs_size(m, start.pending, m.height) == dir_size(m, root));
    assert(dirs_nodes(m, start.pending, m.height) == dir_nodes(m, root));
    lemma_size_run_from(m, start);
}


// ---------------------------------------------------------------------------
// Adding a file
// ---------------------------------------------------------------------------

/// The regular file entry for `path`, named `name`, of `len` bytes.
pub open spec fn file_entry<P>(path: P, name: Seq<char>, len: u64) -> Option<EntryView<P>> {
    Some(EntryView { path, kind: EntryKind::File, name: Some(name), len: Some(len) })
}

/// The tree `m` with the regular file `path` of `len` bytes added to the listing of `dir`.
pub open spec fn with_file<P>(m: FsModel<P>, dir: P, path: P, name: Seq<char>, len: u64) -> FsModel<P> {
    FsModel {
        listing: m.listing.insert(dir, ListingView::Entries(listed(m, dir).push(file_entry(path, name, len)))),
        ..m
    }
}

/// The number of ways in which sizing `p` reaches the directory `d`: one if `p`
/// is `d`, plus those through each subdirectory of `p`.
pub open spec fn dir_routes<P>(m: FsModel<P>, p: P, d: P) -> nat
    decreases m.rank[p], subdirectories(listed(m, p)).len() + 1,
{
    (if p == d { 1nat } else { 0nat }) + dirs_routes(m, subdirectories(listed(m, p)), m.rank[p], d)
}

/// The ways in which sizing each of `ps` whose rank is under `bound` reaches `d`.
pub open spec fn dirs_routes<P>(m: FsModel<P>, ps: Seq<P>, bound: nat, d: P) -> nat
    decreases bound, ps.len(),
{
    if ps.len() == 0 {
        0
    } else {
        dirs_routes(m, ps.drop_last(), bound, d) + if m.rank[ps.last()] < bound {
            dir_routes(m, ps.last(), d)
        } else {
            0
        }
    }
}

/// A file entry adds its length to the files of a listing and no subdirectory.
proof fn lemma_listing_with_file<P>(es: Seq<Option<EntryView<P>>>, path: P, name: Seq<char>, len: u64)
    ensures
        file_bytes(es.push(file_entry(path, name, len))) == file_bytes(es) + len,
        subdirectories(es.push(file_entry(path, name, len))) == subdirectories(es),
{
    assert(es.push(file_entry(path, name, len)).drop_last() =~= es);
}

proof fn lemma_dir_size_with_file<P>(m: FsModel<P>, dir: P, path: P, name: Seq<char>, len: u64, q: P)
    requires
        m.listing.dom().contains(dir),
        m.listing[dir] is Entries,
    ensures
        dir_size(with_file(m, dir, path, name, len), q) == dir_size(m, q) + len * dir_routes(m, q, dir),
    decreases m.rank[q], subdirectories(listed(m, q)).len() + 1,
{
    let m2 = with_file(m, dir, path, name, len);
    let subs = subdirectories(listed(m, q));
    lemma_listing_with_file(listed(m, dir), path, name, len);
    if q == dir {
        assert(listed(m2, q) == listed(m, q).push(file_entry(path, name, len)));
    } else {
        assert(listed(m2, q) == listed(m, q));
    }
    lemma_dirs_size_with_file(m, dir, path, name, len, subs, m.rank[q]);
    let here: nat = if q == dir { 1nat } else { 0nat };
    let below = dirs_routes(m, subs, m.rank[q], dir);
    assert(len * (here + below) == len * here + len * below) by (nonlinear_arith);
}

proof fn lemma_dirs_size_with_file<P>(
    m: FsModel<P>,
    dir: P,
    path: P,
    name: Seq<char>,
    len: u64,
    ps: Seq<P>,
    bound: nat,
)
    requires
        m.listing.dom().contains(dir),
        m.listing[dir] is Entries,
    ensures
        dirs_size(with_file(m, dir, path, name, len), ps, bound) == dirs_size(m, ps, bound) + len * dirs_routes(
            m,
            ps,
            bound,
            dir,
        ),
    decreases bound, ps.len(),
{
    if ps.len() > 0 {
        let last = ps.last();
        lemma_dirs_size_with_file(m, dir, path, name, len, ps.drop_last(), bound);
        let before = dirs_routes(m, ps.drop_last(), bound, dir);
        if m.rank[last] < bound {
            lemma_dir_size_with_file(m, dir, path, name, len, last);
            let here = dir_routes(m, last, dir);
            assert(len * (before + here) == len * before + len * here) by (nonlinear_arith);
        }
    } else {
        assert(len * 0 == 0);
    }
}

/// Adding a regular file of `len` bytes to a readable directory `dir` adds `len`
/// to the size of every directory `q` once for each way in which sizing `q`
/// reaches `dir`: by `len` for a directory that holds `dir` once (itself
/// included), and not at all for one that does not hold it.
pub proof fn lemma_size_with_file<P>(m: FsModel<P>, dir: P, path: P, name: Seq<char>, len: u64, q: P)
    requires
        m.listing.dom().contains(dir),
        m.listing[dir] is Entries,
    ensures
        dir_size(with_file(m, dir, path, name, len), q) == dir_size(m, q) + len * dir_routes(m, q, dir),
        dir_routes(m, q, dir) == 1 ==> dir_size(with_file(m, dir, path, name, len), q) == dir_size(m, q) + len,
        dir_routes(m, q, dir) == 0 ==> dir_size(with_file(m, dir, path, name, len), q) == dir_size(m, q),
{
    lemma_dir_size_with_file(m, dir, path, name, len, q);
}



/// Adding a file to a readable directory keeps a tree finite and consistent.
proof fn lemma_with_file_wf<P>(m: FsModel<P>, dir: P, path: P, name: Seq<char>, len: u64)
    requires
        model_wf(m),
        m.listing.dom().contains(dir),
        m.listing[dir] is Entries,
    ensures
        model_wf(with_file(m, dir, path, name, len)),
{
    let m2 = with_file(m, dir, path, name, len);
    let es = listed(m, dir);
    assert(m2.listing.dom() =~= m.listing.dom());
    assert forall|p: P, i: int|
        m2.listing.dom().contains(p) && 0 <= i < listed(m2, p).len() && is_subdir_entry(
            #[trigger] listed(m2, p)[i],
        ) implies {
        &&& m2.listing.dom().contains(listed(m2, p)[i]->0.path)
        &&& m2.rank[listed(m2, p)[i]->0.path] < m2.rank[p]
    } by {
        if p == dir {
            assert(listed(m2, p) == es.push(file_entry(path, name, len)));
            assert(i < es.len());
            assert(listed(m2, p)[i] == listed(m, p)[i]);
        } else {
            assert(listed(m2, p) == listed(m, p));
        }
    }
}

/// Counting the size of `root`, each listing answered from the tree, ends `len`
/// bytes higher once a file of `len` bytes is added to a directory that `root`
/// holds once (`root` itself included).
pub proof fn lemma_count_with_file<P>(m: FsModel<P>, dir: P, path: P, name: Seq<char>, len: u64, root: P)
    requires
        model_wf(m),
        m.listing.dom().contains(root),
        m.listing.dom().contains(dir),
        m.listing[dir] is Entries,
        dir_routes(m, root, dir) == 1,
        dir_size(m, root) + len <= u64::MAX,
    ensures
        ({
            let m2 = with_file(m, dir, path, name, len);
            let start = SizeCountView { size: 0, pending: seq![root] };
            let before = size_run(m, start, dir_nodes(m, root));
            let after = size_run(m2, start, dir_nodes(m2, root));
            &&& before.pending.len() == 0
            &&& after.pending.len() == 0
            &&& after.size == before.size + len
        }),
{
    let m2 = with_file(m, dir, path, name, len);
    lemma_size_with_file(m, dir, path, name, len, root);
    lemma_with_file_wf(m, dir, path, name, len);
    lemma_size_follows_model(m, root);
    lemma_size_follows_model(m2, root);
}


// ---------------------------------------------------------------------------
// The result agrees with the reports
// ---------------------------------------------------------------------------

/// The folders reported as `Found`, in order.
pub open spec fn found_paths<P>(rs: Seq<ProgressView<P>>) -> Seq<P>
    decreases rs.len(),
{
    if rs.len() == 0 {
        Seq::empty()
    } else {
        match rs.last() {
            ProgressView::Found { path, .. } => found_paths(rs.drop_last()).push(path),
            _ => found_paths(rs.drop_last()),
        }
    }
}

/// The sizes reported as `Found`, added up.
pub open spec fn found_bytes<P>(rs: Seq<ProgressView<P>>) -> nat
    decreases rs.len(),
{
    if rs.len() == 0 {
        0
    } else {
        match rs.last() {
            ProgressView::Found { size, .. } => found_bytes(rs.drop_last()) + size as nat,
            _ => found_bytes(rs.drop_last()),
        }
    }
}

/// A trace whose found folders and bytes are exactly those of its `Found` reports.
pub open spec fn agrees<P>(t: ScanTrace<P>) -> bool {
    t.found == found_paths(t.reports) && t.bytes == found_bytes(t.reports)
}

proof fn lemma_found_concat<P>(a: Seq<ProgressView<P>>, b: Seq<ProgressView<P>>)
    ensures
        found_paths(a + b) == found_paths(a) + found_paths(b),
        found_bytes(a + b) == found_bytes(a) + found_bytes(b),
    decreases b.len(),
{
    if b.len() == 0 {
        assert(a + b =~= a);
        assert(found_paths(a) + found_paths(b) =~= found_paths(a));
    } else {
        assert((a + b).drop_last() =~= a + b.drop_last());
        lemma_found_concat(a, b.drop_last());
        assert(found_paths(a + b) =~= found_paths(a) + found_paths(b));
    }
}

proof fn lemma_then_agrees<P>(a: ScanTrace<P>, b: ScanTrace<P>)
    requires
        agrees(a),
        agrees(b),
    ensures
        agrees(then(a, b)),
{
    lemma_found_concat(a.reports, b.reports);
}

proof fn lemma_single_report_agrees<P>(r: ProgressView<P>)
    requires
        !(r is Found),
    ensures
        agrees(report_step(r)),
{
    let e = Seq::<ProgressView<P>>::empty();
    assert(seq![r].drop_last() =~= e);
    assert(seq![r].last() == r);
    assert(found_paths(e) =~= Seq::<P>::empty());
    assert(found_bytes(e) == 0);
    assert(found_paths(seq![r]) =~= Seq::<P>::empty());
}

proof fn lemma_size_trace_agrees<P>(m: FsModel<P>, target: P, size: nat, pending: Seq<P>)
    requires
        size_trace(m, target, size, pending).bytes <= u64::MAX,
    ensures
        agrees(size_trace(m, target, size, pending)),
{
    let t = size_trace(m, target, size, pending);
    let e = Seq::<ProgressView<P>>::empty();
    assert(t.reports.drop_last() =~= e);
    assert(found_paths(e) =~= Seq::<P>::empty());
    assert(found_bytes(e) == 0);
    assert(found_paths(t.reports) =~= seq![target]);
}

proof fn lemma_body_agrees<P>(m: FsModel<P>, d: P, search: Seq<char>)
    requires
        dir_body(m, d, search).bytes <= u64::MAX,
    ensures
        agrees(dir_body(m, d, search)),
    decreases m.rank[d], scan_targets(listed(m, d), search).len() + 1,
{
    match m.listing[d] {
        ListingView::Failed { path_display, error } => {
            lemma_single_report_agrees(ProgressView::<P>::Warning(warning_text(path_display, error)));
        },
        ListingView::Entries(es) => {
            lemma_list_agrees(m, d, scan_targets(es, search), search, m.rank[d]);
        },
        _ => {
            assert(found_paths(Seq::<ProgressView<P>>::empty()) =~= Seq::<P>::empty());
        },
    }
}

proof fn lemma_visit_agrees<P>(m: FsModel<P>, t: Target<P>, search: Seq<char>)
    requires
        visit(m, t, search).bytes <= u64::MAX,
    ensures
        agrees(visit(m, t, search)),
    decreases m.rank[t.path], scan_targets(listed(m, t.path), search).len() + 3,
{
    assert(agrees(request_step::<P>())) by {
        assert(found_paths(Seq::<ProgressView<P>>::empty()) =~= Seq::<P>::empty());
    }
    match t.name_matches {
        None => {
            assert(found_paths(Seq::<ProgressView<P>>::empty()) =~= Seq::<P>::empty());
        },
        Some(true) => {
            lemma_size_trace_agrees(m, t.path, 0, seq![t.path]);
            lemma_then_agrees(request_step(), size_trace(m, t.path, 0, seq![t.path]));
        },
        Some(false) => {
            lemma_body_agrees(m, t.path, search);
            lemma_then_agrees(request_step(), dir_body(m, t.path, search));
        },
    }
}

proof fn lemma_list_agrees<P>(m: FsModel<P>, parent: P, ts: Seq<Target<P>>, search: Seq<char>, bound: nat)
    requires
        scan_list(m, parent, ts, search, bound).bytes <= u64::MAX,
    ensures
        agrees(scan_list(m, parent, ts, search, bound)),
    decreases bound, ts.len(),
{
    if ts.len() == 0 {
        assert(found_paths(Seq::<ProgressView<P>>::empty()) =~= Seq::<P>::empty());
    } else {
        let t = ts[0];
        let rep = report_step(ProgressView::Scanning(parent));
        let v = if m.rank[t.path] < bound {
            visit(m, t, search)
        } else {
            no_trace()
        };
        lemma_single_report_agrees(ProgressView::Scanning(parent));
        if m.rank[t.path] < bound {
            lemma_visit_agrees(m, t, search);
        } else {
            assert(found_paths(Seq::<ProgressView<P>>::empty()) =~= Seq::<P>::empty());
        }
        lemma_then_agrees(rep, v);
        lemma_list_agrees(m, parent, ts.drop_first(), search, bound);
        lemma_then_agrees(then(rep, v), scan_list(m, parent, ts.drop_first(), search, bound));
    }
}

/// The result of a search agrees with its reports: the found folders are exactly
/// those reported as `Found`, in the same order, and the total size is the sum of
/// the sizes reported with them (when the total fits in `u64`).
pub proof fn lemma_result_matches_reports<P>(m: FsModel<P>, root: P, search: Seq<char>)
    requires
        scan_dir(m, root, search).bytes <= u64::MAX,
    ensures
        scan_dir(m, root, search).found == found_paths(scan_dir(m, root, search).reports),
        scan_dir(m, root, search).bytes == found_bytes(scan_dir(m, root, search).reports),
{
    assert(agrees(request_step::<P>())) by {
        assert(found_paths(Seq::<ProgressView<P>>::empty()) =~= Seq::<P>::empty());
    }
    lemma_body_agrees(m, root, search);
    lemma_then_agrees(request_step(), dir_body(m, root, search));
}

} // verus!
