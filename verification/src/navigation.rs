//! The window's decisions around streaming runs: whether leaving the current
//! chat needs confirmation, which runs a navigation or a deletion stops, and
//! what a request to close the window does.

use vstd::prelude::*;
use crate::sessions::{fields_of, forget_session, without_id};
use crate::text::{chars_of, chars_eq, string_of};
use crate::types::{AppView, ChatMode, ChatSession};

verus! {

/// Where a streaming run stands: still streaming, asked to stop, or over
/// (finished, failed or cancelled).
#[derive(Clone, Copy, PartialEq, Eq, Structural, Debug)]
pub enum RunPhase {
    Running,
    Cancelling,
    Stopped,
}

/// A streaming run of one chat session. A list of runs holds each run ID
/// once (`run_ids_distinct`); the operations here keep that.
#[derive(Clone, Debug)]
pub struct RunRecord {
    pub run_id: String,
    pub session_id: Option<String>,
    pub phase: RunPhase,
}

/// A run's ID, session and phase.
pub type RunView = (Seq<char>, Option<Seq<char>>, RunPhase);

pub open spec fn opt_view(o: Option<String>) -> Option<Seq<char>> {
    match o {
        Some(s) => Some(s@),
        None => None,
    }
}

pub open spec fn run_view(r: RunRecord) -> RunView {
    (r.run_id@, opt_view(r.session_id), r.phase)
}

pub open spec fn runs_view(runs: Seq<RunRecord>) -> Seq<RunView> {
    runs.map_values(|r: RunRecord| run_view(r))
}

/// A run that still holds the session: running or cancelling.
pub open spec fn phase_active(p: RunPhase) -> bool {
    p == RunPhase::Running || p == RunPhase::Cancelling
}

/// Some run of `session` is still active.
pub open spec fn active_in(runs: Seq<RunView>, session: Option<Seq<char>>) -> bool {
    exists|i: int| 0 <= i < runs.len() && phase_active(runs[i].2) && #[trigger] runs[i].1 == session
}

/// Some run, of any session, is still active.
pub open spec fn any_active(runs: Seq<RunView>) -> bool {
    exists|i: int| 0 <= i < runs.len() && #[trigger] phase_active(runs[i].2)
}

/// Whether a run is one that leaving `session` stops: a run of that session,
/// and, where `only_active`, one that is still active.
pub open spec fn run_leaves(r: RunView, session: Option<Seq<char>>, only_active: bool) -> bool {
    r.1 == session && (!only_active || phase_active(r.2))
}

/// The runs that stay, in order.
pub open spec fn runs_kept(runs: Seq<RunView>, session: Option<Seq<char>>, only_active: bool) -> Seq<RunView>
    decreases runs.len(),
{
    if runs.len() == 0 {
        seq![]
    } else {
        let pre = runs_kept(runs.drop_last(), session, only_active);
        if run_leaves(runs.last(), session, only_active) {
            pre
        } else {
            pre.push(runs.last())
        }
    }
}

/// The IDs of the runs that are stopped, in order.
pub open spec fn runs_taken(runs: Seq<RunView>, session: Option<Seq<char>>, only_active: bool) -> Seq<Seq<char>>
    decreases runs.len(),
{
    if runs.len() == 0 {
        seq![]
    } else {
        let pre = runs_taken(runs.drop_last(), session, only_active);
        if run_leaves(runs.last(), session, only_active) {
            pre.push(runs.last().0)
        } else {
            pre
        }
    }
}

/// Each run is listed once: no two runs share an ID.
pub open spec fn run_ids_distinct(runs: Seq<RunView>) -> bool {
    forall|i: int, j: int| 0 <= i < j < runs.len() ==> #[trigger] runs[i].0 != #[trigger] runs[j].0
}

/// Every run that stays is one of the runs.
proof fn lemma_kept_from(runs: Seq<RunView>, session: Option<Seq<char>>, only_active: bool)
    ensures
        forall|i: int| 0 <= i < runs_kept(runs, session, only_active).len() ==> exists|j: int| 0 <= j < runs.len()
            && #[trigger] runs_kept(runs, session, only_active)[i] == runs[j],
    decreases runs.len(),
{
    if runs.len() > 0 {
        let pre = runs_kept(runs.drop_last(), session, only_active);
        let k = runs_kept(runs, session, only_active);
        lemma_kept_from(runs.drop_last(), session, only_active);
        assert forall|i: int| 0 <= i < k.len() implies exists|j: int| 0 <= j < runs.len() && #[trigger] k[i] == runs[j] by {
            if i < pre.len() {
                assert(k[i] == pre[i]);
                let j = choose|j: int| 0 <= j < runs.drop_last().len() && pre[i] == runs.drop_last()[j];
                assert(k[i] == runs[j]);
            } else {
                assert(k[i] == runs[runs.len() - 1]);
            }
        }
    }
}

/// Stopping runs keeps each remaining run listed once.
pub proof fn lemma_kept_distinct(runs: Seq<RunView>, session: Option<Seq<char>>, only_active: bool)
    requires
        run_ids_distinct(runs),
    ensures
        run_ids_distinct(runs_kept(runs, session, only_active)),
    decreases runs.len(),
{
    if runs.len() > 0 {
        let d = runs.drop_last();
        let pre = runs_kept(d, session, only_active);
        let k = runs_kept(runs, session, only_active);
        assert(run_ids_distinct(d)) by {
            assert forall|i: int, j: int| 0 <= i < j < d.len() implies #[trigger] d[i].0 != #[trigger] d[j].0 by {
                assert(d[i] == runs[i] && d[j] == runs[j]);
            }
        }
        lemma_kept_distinct(d, session, only_active);
        lemma_kept_from(d, session, only_active);
        if !run_leaves(runs.last(), session, only_active) {
            assert forall|i: int, j: int| 0 <= i < j < k.len() implies #[trigger] k[i].0 != #[trigger] k[j].0 by {
                if j < pre.len() {
                    assert(k[i] == pre[i] && k[j] == pre[j]);
                } else {
                    assert(k[i] == pre[i]);
                    let q = choose|q: int| 0 <= q < d.len() && pre[i] == d[q];
                    assert(d[q] == runs[q]);
                    assert(k[j] == runs[runs.len() - 1]);
                }
            }
        }
    }
}

/// Whether two optional session IDs are the same.
pub fn same_session(a: &Option<String>, b: &Option<String>) -> (r: bool)
    ensures
        r == (opt_view(*a) == opt_view(*b)),
{
    match (a, b) {
        (Some(x), Some(y)) => chars_eq(&chars_of(x.as_str()), &chars_of(y.as_str())),
        (None, None) => true,
        _ => false,
    }
}

/// Whether some run of `session` is still running or cancelling.
pub fn session_has_active_runs(runs: &[RunRecord], session: &Option<String>) -> (r: bool)
    ensures
        r == active_in(runs_view(runs@), opt_view(*session)),
{
    let ghost rv = runs_view(runs@);
    let mut i: usize = 0;
    while i < runs.len()
        invariant
            i <= runs.len(),
            rv == runs_view(runs@),
            forall|j: int| 0 <= j < i ==> !(phase_active(rv[j].2) && #[trigger] rv[j].1 == opt_view(*session)),
        decreases runs.len() - i,
    {
        let r = &runs[i];
        if (r.phase == RunPhase::Running || r.phase == RunPhase::Cancelling) && same_session(&r.session_id, session) {
            assert(rv[i as int] == run_view(runs@[i as int]));
            assert(phase_active(rv[i as int].2) && rv[i as int].1 == opt_view(*session));
            return true;
        }
        assert(rv[i as int] == run_view(runs@[i as int]));
        i = i + 1;
    }
    false
}

/// A request to leave the current chat for `target` (a session ID, or
/// `new_chat`). While a run of the current session is active the target is
/// held back and the confirmation dialog opens, and nothing is returned;
/// otherwise the target comes back, to be opened at once, and nothing changes.
pub fn request_navigation(
    runs: &[RunRecord],
    current: &Option<String>,
    target: String,
    pending: &mut Option<String>,
    dialog_open: &mut bool,
) -> (go: Option<String>)
    ensures
        active_in(runs_view(runs@), opt_view(*current)) ==> go is None && opt_view(*final(pending)) == Some(target@)
            && *final(dialog_open),
        !active_in(runs_view(runs@), opt_view(*current)) ==> opt_view(go) == Some(target@) && *final(pending)
            == *old(pending) && *final(dialog_open) == *old(dialog_open),
{
    if session_has_active_runs(runs, current) {
        *pending = Some(target);
        *dialog_open = true;
        None
    } else {
        Some(target)
    }
}

/// The user confirmed leaving: the dialog closes and the held-back target,
/// if any, is handed out to be opened.
pub fn confirm_navigation(pending: &mut Option<String>, dialog_open: &mut bool) -> (go: Option<String>)
    ensures
        go == *old(pending),
        *final(pending) is None,
        !*final(dialog_open),
{
    *dialog_open = false;
    pending.take()
}

/// Moves the runs that `run_leaves` picks out of `runs`; their IDs are
/// returned, for their tasks to be cancelled.
fn take_runs(runs: &mut Vec<RunRecord>, session: &Option<String>, only_active: bool) -> (ids: Vec<String>)
    ensures
        runs_view(final(runs)@) == runs_kept(runs_view(old(runs)@), opt_view(*session), only_active),
        ids@.map_values(|s: String| s@) == runs_taken(runs_view(old(runs)@), opt_view(*session), only_active),
{
    let ghost all = runs_view(old(runs)@);
    let ghost sv = opt_view(*session);
    let mut rest: Vec<RunRecord> = Vec::new();
    std::mem::swap(runs, &mut rest);
    let mut ids: Vec<String> = Vec::new();
    let n = rest.len();
    let mut k: usize = 0;
    assert(all.take(0) =~= Seq::<RunView>::empty());
    assert(runs_view(runs@) =~= runs_kept(all.take(0), sv, only_active));
    assert(ids@.map_values(|s: String| s@) =~= runs_taken(all.take(0), sv, only_active));
    while rest.len() > 0
        invariant
            k + rest.len() == n == all.len(),
            sv == opt_view(*session),
            forall|q: int| 0 <= q < rest.len() ==> run_view(#[trigger] rest@[q]) == all[q + k],
            runs_view(runs@) == runs_kept(all.take(k as int), sv, only_active),
            ids@.map_values(|s: String| s@) == runs_taken(all.take(k as int), sv, only_active),
        decreases rest.len(),
    {
        let ghost r0 = rest@;
        let r = rest.remove(0);
        assert(run_view(r) == all[k as int]);
        assert forall|q: int| 0 <= q < rest.len() implies run_view(#[trigger] rest@[q]) == all[q + k + 1] by {
            assert(rest@[q] == r0[q + 1]);
        }
        assert(all.take(k + 1).drop_last() =~= all.take(k as int));
        let leaves = same_session(&r.session_id, session) && (!only_active || r.phase == RunPhase::Running
            || r.phase == RunPhase::Cancelling);
        let ghost before = runs_view(runs@);
        let ghost before_ids = ids@.map_values(|s: String| s@);
        if leaves {
            let ghost prev = ids@;
            ids.push(r.run_id);
            assert(ids@.map_values(|s: String| s@) =~= before_ids.push(all[k as int].0));
        } else {
            let ghost prev = runs@;
            runs.push(r);
            assert(runs_view(runs@) =~= before.push(all[k as int])) by {
                assert forall|j: int| 0 <= j < prev.len() implies run_view(runs@[j]) == before[j] by {
                    assert(runs@[j] == prev[j]);
                }
            }
        }
        k = k + 1;
    }
    assert(all.take(k as int) =~= all);
    ids
}

/// Stops the active runs of the current session, as leaving it does: they
/// leave `runs`, and their IDs are returned, for their tasks to be cancelled.
pub fn take_active_runs(runs: &mut Vec<RunRecord>, current: &Option<String>) -> (ids: Vec<String>)
    ensures
        runs_view(final(runs)@) == runs_kept(runs_view(old(runs)@), opt_view(*current), true),
        ids@.map_values(|s: String| s@) == runs_taken(runs_view(old(runs)@), opt_view(*current), true),
        run_ids_distinct(runs_view(old(runs)@)) ==> run_ids_distinct(runs_view(final(runs)@)),
{
    proof {
        if run_ids_distinct(runs_view(old(runs)@)) {
            lemma_kept_distinct(runs_view(old(runs)@), opt_view(*current), true);
        }
    }
    take_runs(runs, current, true)
}

/// Stops every run of a session that is being deleted, whatever its phase:
/// they leave `runs`, and their IDs are returned.
pub fn take_session_runs(runs: &mut Vec<RunRecord>, session_id: &str) -> (ids: Vec<String>)
    ensures
        runs_view(final(runs)@) == runs_kept(runs_view(old(runs)@), Some(session_id@), false),
        ids@.map_values(|s: String| s@) == runs_taken(runs_view(old(runs)@), Some(session_id@), false),
        run_ids_distinct(runs_view(old(runs)@)) ==> run_ids_distinct(runs_view(final(runs)@)),
{
    proof {
        if run_ids_distinct(runs_view(old(runs)@)) {
            lemma_kept_distinct(runs_view(old(runs)@), Some(session_id@), false);
        }
    }
    let s = Some(string_of(&chars_of(session_id)));
    take_runs(runs, &s, false)
}

impl RunPhase {
    /// Whether the run still holds its session: running or cancelling.
    pub fn is_active(&self) -> (r: bool)
        ensures
            r == phase_active(*self),
    {
        match self {
            RunPhase::Running | RunPhase::Cancelling => true,
            RunPhase::Stopped => false,
        }
    }
}

/// What a request to close the window does.
#[derive(Clone, Copy, PartialEq, Eq, Structural, Debug)]
pub enum CloseAction {
    /// A shutdown is already under way: the request is ignored.
    Ignore,
    /// No run is active: the window closes now.
    CloseNow,
    /// Active runs were asked to cancel; the window closes once they are
    /// over or the grace period ends.
    Shutdown,
}

/// The runs with every active one marked cancelling.
pub open spec fn cancelling(runs: Seq<RunView>) -> Seq<RunView> {
    runs.map_values(|r: RunView| if phase_active(r.2) { (r.0, r.1, RunPhase::Cancelling) } else { r })
}

/// Whether any run, of any session, is still active.
pub fn any_run_active(runs: &[RunRecord]) -> (r: bool)
    ensures
        r == any_active(runs_view(runs@)),
{
    let ghost rv = runs_view(runs@);
    let mut i: usize = 0;
    while i < runs.len()
        invariant
            i <= runs.len(),
            rv == runs_view(runs@),
            forall|j: int| 0 <= j < i ==> !#[trigger] phase_active(rv[j].2),
        decreases runs.len() - i,
    {
        assert(rv[i as int] == run_view(runs@[i as int]));
        if runs[i].phase.is_active() {
            assert(phase_active(rv[i as int].2));
            return true;
        }
        i = i + 1;
    }
    false
}

/// The window was asked to close. The first request with active runs starts
/// the shutdown and marks them cancelling; later requests are ignored.
pub fn close_requested(shutting_down: &mut bool, runs: &mut Vec<RunRecord>) -> (a: CloseAction)
    ensures
        *old(shutting_down) ==> a == CloseAction::Ignore && *final(shutting_down) && runs_view(final(runs)@)
            == runs_view(old(runs)@),
        !*old(shutting_down) && !any_active(runs_view(old(runs)@)) ==> a == CloseAction::CloseNow
            && !*final(shutting_down) && runs_view(final(runs)@) == runs_view(old(runs)@),
        !*old(shutting_down) && any_active(runs_view(old(runs)@)) ==> a == CloseAction::Shutdown
            && *final(shutting_down) && runs_view(final(runs)@) == cancelling(runs_view(old(runs)@)),
        run_ids_distinct(runs_view(old(runs)@)) ==> run_ids_distinct(runs_view(final(runs)@)),
{
    if *shutting_down {
        return CloseAction::Ignore;
    }
    if !any_run_active(runs) {
        return CloseAction::CloseNow;
    }
    *shutting_down = true;
    let ghost all = runs_view(old(runs)@);
    let mut rest: Vec<RunRecord> = Vec::new();
    std::mem::swap(runs, &mut rest);
    let n = rest.len();
    let mut k: usize = 0;
    assert(runs_view(runs@) =~= cancelling(all.take(0)));
    while rest.len() > 0
        invariant
            k + rest.len() == n == all.len(),
            forall|q: int| 0 <= q < rest.len() ==> run_view(#[trigger] rest@[q]) == all[q + k],
            runs_view(runs@) == cancelling(all.take(k as int)),
            runs.len() == k,
        decreases rest.len(),
    {
        let ghost r0 = rest@;
        let mut r = rest.remove(0);
        assert(run_view(r) == all[k as int]);
        assert forall|q: int| 0 <= q < rest.len() implies run_view(#[trigger] rest@[q]) == all[q + k + 1] by {
            assert(rest@[q] == r0[q + 1]);
        }
        if r.phase.is_active() {
            r.phase = RunPhase::Cancelling;
        }
        let ghost before = runs_view(runs@);
        let ghost prev = runs@;
        let ghost last = run_view(r);
        runs.push(r);
        assert(last == cancelling(all.take(k + 1))[k as int]);
        assert(runs_view(runs@) =~= cancelling(all.take(k + 1))) by {
            assert forall|j: int| 0 <= j < prev.len() implies run_view(runs@[j]) == cancelling(all.take(k + 1))[j] by {
                assert(runs@[j] == prev[j]);
                assert(before[j] == cancelling(all.take(k as int))[j]);
                assert(all.take(k + 1)[j] == all.take(k as int)[j]);
            }
        }
        k = k + 1;
    }
    assert(all.take(k as int) =~= all);
    CloseAction::Shutdown
}

/// During a shutdown: the window may close once no run is active or the
/// grace period has passed.
pub fn shutdown_may_close(runs: &[RunRecord], grace_over: bool) -> (r: bool)
    ensures
        r == (!any_active(runs_view(runs@)) || grace_over),
{
    grace_over || !any_run_active(runs)
}

/// Leaving a session stops all of its active runs: none is left in the list.
pub proof fn lemma_leaving_stops_all(runs: Seq<RunView>, session: Option<Seq<char>>)
    ensures
        !active_in(runs_kept(runs, session, true), session),
    decreases runs.len(),
{
    if runs.len() > 0 {
        lemma_leaving_stops_all(runs.drop_last(), session);
    }
}

/// Deleting a session stops every run of it: no run of the session is left.
pub proof fn lemma_deleting_stops_all(runs: Seq<RunView>, session_id: Seq<char>)
    ensures
        forall|i: int| 0 <= i < runs_kept(runs, Some(session_id), false).len()
            ==> #[trigger] runs_kept(runs, Some(session_id), false)[i].1 != Some(session_id),
    decreases runs.len(),
{
    if runs.len() > 0 {
        lemma_deleting_stops_all(runs.drop_last(), session_id);
    }
}

/// Every run is either kept or stopped, never both and never lost.
pub proof fn lemma_runs_partition(runs: Seq<RunView>, session: Option<Seq<char>>, only_active: bool)
    ensures
        runs_kept(runs, session, only_active).len() + runs_taken(runs, session, only_active).len() == runs.len(),
    decreases runs.len(),
{
    if runs.len() > 0 {
        lemma_runs_partition(runs.drop_last(), session, only_active);
    }
}

/// Starting a shutdown leaves the same runs active, each of them cancelling.
pub proof fn lemma_cancelling(runs: Seq<RunView>)
    ensures
        cancelling(runs).len() == runs.len(),
        any_active(cancelling(runs)) == any_active(runs),
        forall|i: int| 0 <= i < runs.len() && phase_active(runs[i].2) ==> #[trigger] cancelling(runs)[i].2
            == RunPhase::Cancelling,
{
    if any_active(runs) {
        let i = choose|i: int| 0 <= i < runs.len() && #[trigger] phase_active(runs[i].2);
        assert(phase_active(cancelling(runs)[i].2));
    }
    if any_active(cancelling(runs)) {
        let i = choose|i: int| 0 <= i < cancelling(runs).len() && #[trigger] phase_active(cancelling(runs)[i].2);
        assert(phase_active(runs[i].2));
    }
}

/// What the sidebar shows of its sessions: ID, title, mode and timestamp.
pub open spec fn list_view(sessions: Seq<ChatSession>) -> Seq<(Seq<char>, Seq<char>, ChatMode, Seq<char>)> {
    sessions.map_values(|x: ChatSession| fields_of(x))
}

/// The first session of ID `id` in the list is at `i`.
pub open spec fn first_with_id(list: Seq<(Seq<char>, Seq<char>, ChatMode, Seq<char>)>, id: Seq<char>, i: int) -> bool {
    0 <= i < list.len() && list[i].0 == id && forall|j: int| 0 <= j < i ==> #[trigger] list[j].0 != id
}

/// Some session in the list has ID `id`.
pub open spec fn has_id(list: Seq<(Seq<char>, Seq<char>, ChatMode, Seq<char>)>, id: Seq<char>) -> bool {
    exists|i: int| 0 <= i < list.len() && #[trigger] list[i].0 == id
}

/// The mode of the first session of ID `id`, if one is listed.
pub open spec fn mode_of_first(list: Seq<(Seq<char>, Seq<char>, ChatMode, Seq<char>)>, id: Seq<char>) -> Option<ChatMode> {
    if exists|i: int| first_with_id(list, id, i) {
        Some(list[choose|i: int| first_with_id(list, id, i)].2)
    } else {
        None
    }
}

/// Where the first session of ID `id` stands in the list, if it is listed.
pub fn find_session(sessions: &[ChatSession], id: &str) -> (r: Option<usize>)
    ensures
        match r {
            Some(i) => first_with_id(list_view(sessions@), id@, i as int),
            None => !has_id(list_view(sessions@), id@),
        },
{
    let ghost l = list_view(sessions@);
    let idc = chars_of(id);
    let mut i: usize = 0;
    while i < sessions.len()
        invariant
            i <= sessions.len() == l.len(),
            idc@ == id@,
            l == list_view(sessions@),
            forall|j: int| 0 <= j < i ==> #[trigger] l[j].0 != id@,
        decreases sessions.len() - i,
    {
        assert(l[i as int] == fields_of(sessions@[i as int]));
        if chars_eq(&chars_of(sessions[i].id.as_str()), &idc) {
            return Some(i);
        }
        i = i + 1;
    }
    None
}

proof fn lemma_first_unique(list: Seq<(Seq<char>, Seq<char>, ChatMode, Seq<char>)>, id: Seq<char>, i: int)
    requires
        first_with_id(list, id, i),
    ensures
        mode_of_first(list, id) == Some(list[i].2),
{
    let k = choose|k: int| first_with_id(list, id, k);
    assert(first_with_id(list, id, k));
    if k < i {
        assert(list[k].0 != id);
    } else if i < k {
        assert(list[i].0 != id);
    }
}

/// The view that closing the settings returns to: the chat of the current
/// session, in its mode, where that session is listed; a new chat otherwise.
pub open spec fn settings_exit_view(list: Seq<(Seq<char>, Seq<char>, ChatMode, Seq<char>)>, current: Option<Seq<char>>) -> AppView {
    match current {
        Some(id) => match mode_of_first(list, id) {
            Some(m) => AppView::ChatMode(m),
            None => AppView::NewChat,
        },
        None => AppView::NewChat,
    }
}

/// The view shown once the settings close.
pub fn view_after_settings(current: &Option<String>, sessions: &[ChatSession]) -> (v: AppView)
    ensures
        v == settings_exit_view(list_view(sessions@), opt_view(*current)),
{
    match current {
        Some(id) => match find_session(sessions, id.as_str()) {
            Some(i) => {
                proof {
                    lemma_first_unique(list_view(sessions@), id@, i as int);
                    assert(list_view(sessions@)[i as int] == fields_of(sessions@[i as int]));
                }
                AppView::ChatMode(sessions[i].mode)
            },
            None => {
                proof {
                    let l = list_view(sessions@);
                    if exists|k: int| first_with_id(l, id@, k) {
                        let k = choose|k: int| first_with_id(l, id@, k);
                        assert(l[k].0 == id@);
                    }
                }
                AppView::NewChat
            },
        },
        None => AppView::NewChat,
    }
}

/// What opening a navigation target takes.
#[derive(Clone, Copy, PartialEq, Eq, Structural, Debug)]
pub enum NavigationPlan {
    /// Show a new chat, with no current session.
    NewChat,
    /// The session at this place of the list, once its file is found on
    /// disk; where it is not, the session leaves the list.
    Open(usize),
    /// The target is not listed: the view stays.
    Stay,
}

/// Plans opening `target`: `new_chat`, or the first listed session of that ID.
pub fn plan_navigation(target: &str, sessions: &[ChatSession]) -> (p: NavigationPlan)
    ensures
        target@ == "new_chat"@ ==> p == NavigationPlan::NewChat,
        target@ != "new_chat"@ ==> match p {
            NavigationPlan::Open(i) => first_with_id(list_view(sessions@), target@, i as int),
            NavigationPlan::Stay => !has_id(list_view(sessions@), target@),
            NavigationPlan::NewChat => false,
        },
{
    if chars_eq(&chars_of(target), &chars_of("new_chat")) {
        NavigationPlan::NewChat
    } else {
        match find_session(sessions, target) {
            Some(i) => NavigationPlan::Open(i),
            None => NavigationPlan::Stay,
        }
    }
}

/// A session's file was deleted: the session leaves the list, and where it
/// was the current one the client goes back to a new chat.
pub fn finish_deletion(
    sessions: &mut Vec<ChatSession>,
    current: &mut Option<String>,
    view: &mut AppView,
    deleted: &str,
    was_current: bool,
)
    ensures
        list_view(final(sessions)@) == without_id(list_view(old(sessions)@), deleted@),
        was_current ==> *final(current) is None && *final(view) == AppView::NewChat,
        !was_current ==> *final(current) == *old(current) && *final(view) == *old(view),
{
    forget_session(sessions, deleted);
    if was_current {
        *current = None;
        *view = AppView::NewChat;
    }
}

} // verus!
