//! `ai-memory reorg --by-cwd [--dry-run]`
//!
//! Moves existing sessions to per-directory projects, by the working
//! directory captured when each session started. The operation is idempotent:
//! sessions that are already in the right project are skipped.

use crate::ids::{ProjectId, SessionId, WorkspaceId};
use crate::path;
use crate::text;
use std::collections::HashSet;
use vstd::hash_map::StringHashMap;
use vstd::hash_set::StringHashSet;
use vstd::prelude::*;
use vstd::string::*;

verus! {

broadcast use vstd::std_specs::hash::group_hash_axioms;

/// The workspace whose sessions are reorganised.
pub const WORKSPACE: &'static str = "default";

/// The query for the sessions that can be placed: those with a working
/// directory, oldest first.
pub const SESSIONS_WITH_CWD: &'static str = "SELECT id, project_id, cwd FROM sessions WHERE cwd IS NOT NULL AND cwd != '' ORDER BY started_at";

/// A session row as the store decoded it: either key may turn out not to be
/// one.
pub struct SessionRecord<E> {
    /// The session's key, and the text that it displays as.
    pub session: Result<(SessionId, String), E>,
    pub project_id: Result<ProjectId, E>,
    pub cwd: String,
}

/// A session with its working directory and the project it is filed under.
pub struct SessionRow {
    pub session_id: SessionId,
    /// The text that the session's key displays as.
    pub session_text: String,
    pub project_id: ProjectId,
    pub cwd: String,
}

/// A session with what the platform finds to be the file name of its working
/// directory.
pub struct NamedSession {
    pub row: SessionRow,
    pub base_name: Option<String>,
}

/// What a [`NamedSession`] says.
pub struct SessionView {
    pub session_id: SessionId,
    pub session_text: Seq<char>,
    pub project_id: ProjectId,
    pub cwd: Seq<char>,
    pub base_name: Option<Seq<char>>,
}

impl View for NamedSession {
    type V = SessionView;

    open spec fn view(&self) -> SessionView {
        SessionView {
            session_id: self.row.session_id,
            session_text: self.row.session_text@,
            project_id: self.row.project_id,
            cwd: self.row.cwd@,
            base_name: path::name_view(self.base_name),
        }
    }
}

/// A project to look up in the store, or to create there if it is missing.
pub struct ProjectRequest {
    pub workspace_id: WorkspaceId,
    pub name: String,
    /// The directory that the project stands for.
    pub cwd: String,
}

/// What a [`ProjectRequest`] says.
pub struct ProjectRequestView {
    pub workspace_id: WorkspaceId,
    pub name: Seq<char>,
    pub cwd: Seq<char>,
}

impl View for ProjectRequest {
    type V = ProjectRequestView;

    open spec fn view(&self) -> ProjectRequestView {
        ProjectRequestView {
            workspace_id: self.workspace_id,
            name: self.name@,
            cwd: self.cwd@,
        }
    }
}

/// A single entry in the reorg plan.
pub struct PlanEntry {
    pub session_id: SessionId,
    /// The text that the session's key displays as.
    pub session_text: String,
    pub new_project_id: ProjectId,
    pub cwd: String,
    pub project_name: String,
}

/// What a [`PlanEntry`] says.
pub struct PlanEntryView {
    pub session_id: SessionId,
    pub session_text: Seq<char>,
    pub new_project_id: ProjectId,
    pub cwd: Seq<char>,
    pub project_name: Seq<char>,
}

impl View for PlanEntry {
    type V = PlanEntryView;

    open spec fn view(&self) -> PlanEntryView {
        PlanEntryView {
            session_id: self.session_id,
            session_text: self.session_text@,
            new_project_id: self.new_project_id,
            cwd: self.cwd@,
            project_name: self.project_name@,
        }
    }
}

/// What the sessions say, one by one.
pub open spec fn session_views(sessions: Seq<NamedSession>) -> Seq<SessionView> {
    sessions.map_values(|session: NamedSession| session@)
}

/// What the requests say, request by request.
pub open spec fn request_views(requests: Seq<ProjectRequest>) -> Seq<ProjectRequestView> {
    requests.map_values(|request: ProjectRequest| request@)
}

/// What the plan says, entry by entry.
pub open spec fn plan_views(plan: Seq<PlanEntry>) -> Seq<PlanEntryView> {
    plan.map_values(|entry: PlanEntry| entry@)
}

// --- Reading the sessions -------------------------------------------------

/// The session that a record holds, or the first thing that is wrong with it:
/// that it could not be read, its session key, its project key.
pub open spec fn decoded<E>(record: Result<SessionRecord<E>, E>) -> Result<SessionRow, E> {
    match record {
        Err(error) => Err(error),
        Ok(record) => match (record.session, record.project_id) {
            (Err(error), _) => Err(error),
            (_, Err(error)) => Err(error),
            (Ok((session_id, session_text)), Ok(project_id)) => Ok(
                SessionRow { session_id, session_text, project_id, cwd: record.cwd },
            ),
        },
    }
}

/// Decodes the records in order. The first one that is not sound decides the
/// error.
pub fn decode_sessions<E>(records: Vec<Result<SessionRecord<E>, E>>) -> (rows: Result<
    Vec<SessionRow>,
    E,
>)
    ensures
        match rows {
            Ok(rows) => {
                &&& rows@.len() == records@.len()
                &&& forall|i: int|
                    0 <= i < records@.len() ==> decoded(#[trigger] records@[i]) == Ok::<_, E>(
                        rows@[i],
                    )
                &&& forall|i: int|
                    0 <= i < records@.len() ==> {
                        &&& (#[trigger] records@[i]) is Ok
                        &&& records@[i]->Ok_0.session == Ok::<_, E>(
                            (rows@[i].session_id, rows@[i].session_text),
                        )
                        &&& records@[i]->Ok_0.project_id == Ok::<_, E>(rows@[i].project_id)
                        &&& records@[i]->Ok_0.cwd == rows@[i].cwd
                    }
            },
            Err(error) => exists|i: int|
                {
                    &&& 0 <= i < records@.len()
                    &&& decoded(#[trigger] records@[i]) == Err::<SessionRow, _>(error)
                    &&& forall|j: int| 0 <= j < i ==> decoded(#[trigger] records@[j]) is Ok
                },
        },
{
    let mut rows: Vec<SessionRow> = Vec::new();
    let ghost all = records@;
    for record in iter: records
        invariant
            iter.seq() == all,
            rows@.len() == iter.index(),
            forall|j: int|
                0 <= j < iter.index() ==> decoded(#[trigger] all[j]) == Ok::<_, E>(rows@[j]),
            forall|j: int|
                0 <= j < iter.index() ==> {
                    &&& (#[trigger] all[j]) is Ok
                    &&& all[j]->Ok_0.session == Ok::<_, E>(
                        (rows@[j].session_id, rows@[j].session_text),
                    )
                    &&& all[j]->Ok_0.project_id == Ok::<_, E>(rows@[j].project_id)
                    &&& all[j]->Ok_0.cwd == rows@[j].cwd
                },
    {
        assert(record == all[iter.index() as int]);
        match record {
            Err(error) => {
                return Err(error);
            },
            Ok(record) => match record.session {
                Err(error) => {
                    return Err(error);
                },
                Ok((session_id, session_text)) => match record.project_id {
                    Err(error) => {
                        return Err(error);
                    },
                    Ok(project_id) => {
                        rows.push(
                            SessionRow { session_id, session_text, project_id, cwd: record.cwd },
                        );
                    },
                },
            },
        }
    }
    Ok(rows)
}

// --- Resolving the projects -----------------------------------------------

/// `items` without those that occurred before.
pub open spec fn first_occurrences(items: Seq<Seq<char>>) -> Seq<Seq<char>>
    decreases items.len(),
{
    if items.len() == 0 {
        Seq::empty()
    } else {
        let before = first_occurrences(items.drop_last());
        if items.drop_last().contains(items.last()) {
            before
        } else {
            before.push(items.last())
        }
    }
}

/// The working directories of the sessions.
pub open spec fn cwds(sessions: Seq<SessionView>) -> Seq<Seq<char>> {
    sessions.map_values(|session: SessionView| session.cwd)
}

/// Whether `named` are the rows, in order, each with a file name that its
/// working directory can have.
pub open spec fn are_named(named: Seq<NamedSession>, rows: Seq<SessionRow>) -> bool {
    &&& named.len() == rows.len()
    &&& forall|i: int|
        0 <= i < rows.len() ==> (#[trigger] named[i]).row == rows[i] && path::can_be_file_name(
            path::name_view(named[i].base_name),
            rows[i].cwd@,
        )
}

/// Finds the file name of each session's working directory.
fn name_sessions(rows: Vec<SessionRow>) -> (named: Vec<NamedSession>)
    ensures
        are_named(named@, rows@),
{
    let mut named: Vec<NamedSession> = Vec::new();
    let ghost all = rows@;
    for row in iter: rows
        invariant
            iter.seq() == all,
            named@.len() == iter.index(),
            are_named(named@, all.take(iter.index() as int)),
    {
        assert(row == all[iter.index() as int]);
        let base_name: Option<String> = path::file_name(row.cwd.as_str());
        named.push(NamedSession { row, base_name });
    }
    assert(all.take(all.len() as int) =~= all);
    named
}

/// The sessions that are the first to name their working directory.
pub open spec fn first_sessions(sessions: Seq<SessionView>) -> Seq<SessionView>
    decreases sessions.len(),
{
    if sessions.len() == 0 {
        Seq::empty()
    } else {
        let before = first_sessions(sessions.drop_last());
        if cwds(sessions.drop_last()).contains(sessions.last().cwd) {
            before
        } else {
            before.push(sessions.last())
        }
    }
}

/// The project of the session's working directory, as it is asked for.
pub open spec fn request_for(
    workspace_id: WorkspaceId,
    session: SessionView,
) -> ProjectRequestView {
    ProjectRequestView {
        workspace_id,
        name: path::project_name_of(session.base_name),
        cwd: session.cwd,
    }
}

/// One request for each distinct working directory, in the order in which the
/// sessions first name them.
pub open spec fn requests_for(workspace_id: WorkspaceId, sessions: Seq<SessionView>) -> Seq<
    ProjectRequestView,
> {
    first_sessions(sessions).map_values(
        |session: SessionView| request_for(workspace_id, session),
    )
}

/// The projects that the sessions need: one request for each distinct working
/// directory.
pub fn project_requests(workspace_id: WorkspaceId, sessions: &Vec<NamedSession>) -> (requests: Vec<
    ProjectRequest,
>)
    ensures
        request_views(requests@) == requests_for(workspace_id, session_views(sessions@)),
{
    let mut requests: Vec<ProjectRequest> = Vec::new();
    let mut seen: StringHashSet = StringHashSet::new();
    let ghost all = session_views(sessions@);
    let mut i: usize = 0;
    assert(all.take(0) =~= Seq::empty());
    assert(request_views(requests@) =~= Seq::empty());
    while i < sessions.len()
        invariant
            i <= sessions.len(),
            all == session_views(sessions@),
            forall|cwd: Seq<char>| seen@.contains(cwd) <==> cwds(all.take(i as int)).contains(cwd),
            request_views(requests@) =~= requests_for(workspace_id, all.take(i as int)),
        decreases sessions.len() - i,
    {
        let session: &NamedSession = &sessions[i];
        let cwd: &String = &session.row.cwd;
        let ghost front = cwds(all.take(i as int));
        let ghost next = cwds(all.take(i + 1));
        proof {
            assert(all.take(i + 1).drop_last() =~= all.take(i as int));
            assert(all.take(i + 1).last() == session@);
            assert(next =~= front.push(cwd@));
            assert forall|c: Seq<char>| next.contains(c) <==> (front.contains(c) || c == cwd@) by {
                if front.contains(c) {
                    let k = choose|k: int| 0 <= k < front.len() && front[k] == c;
                    assert(next[k] == c);
                }
                if c == cwd@ {
                    assert(next[i as int] == c);
                }
                if next.contains(c) && c != cwd@ {
                    let k = choose|k: int| 0 <= k < next.len() && next[k] == c;
                    assert(front[k] == c);
                }
            }
        }
        if !seen.contains(cwd.as_str()) {
            let ghost before = requests@;
            requests.push(
                ProjectRequest {
                    workspace_id,
                    name: path::project_name(&session.base_name),
                    cwd: cwd.clone(),
                },
            );
            seen.insert(cwd.clone());
            assert(request_views(requests@) =~= request_views(before).push(
                request_for(workspace_id, session@),
            ));
        }
        i = i + 1;
    }
    assert(all.take(i as int) =~= all);
    requests
}

/// The projects found so far, by working directory.
struct ProjectCache {
    projects: StringHashMap<ProjectId>,
}

impl View for ProjectCache {
    type V = Map<Seq<char>, ProjectId>;

    closed spec fn view(&self) -> Map<Seq<char>, ProjectId> {
        self.projects@
    }
}

/// Whether every session's working directory has its project.
pub open spec fn covers(projects: Map<Seq<char>, ProjectId>, sessions: Seq<SessionView>) -> bool {
    forall|i: int| 0 <= i < sessions.len() ==> projects.contains_key((#[trigger] sessions[i]).cwd)
}

impl ProjectCache {
    fn new() -> (cache: Self)
        ensures
            cache@ == Map::<Seq<char>, ProjectId>::empty(),
    {
        ProjectCache { projects: StringHashMap::new() }
    }

    /// Files the project that answers `request` under the request's directory.
    fn record(&mut self, request: &ProjectRequest, project_id: ProjectId)
        ensures
            final(self)@ == old(self)@.insert(request.cwd@, project_id),
    {
        self.projects.insert(request.cwd.clone(), project_id);
    }
}

// --- Planning the moves ---------------------------------------------------

/// Whether the session is filed under another project than its directory's.
pub open spec fn is_misfiled(session: SessionView, projects: Map<Seq<char>, ProjectId>) -> bool {
    projects[session.cwd] != session.project_id
}

/// The move that files the session under its directory's project.
pub open spec fn planned(session: SessionView, projects: Map<Seq<char>, ProjectId>) -> PlanEntryView {
    PlanEntryView {
        session_id: session.session_id,
        session_text: session.session_text,
        new_project_id: projects[session.cwd],
        cwd: session.cwd,
        project_name: path::listed_name_of(session.base_name),
    }
}

/// One entry for each misfiled session, in the order of the sessions.
pub open spec fn plan_for(sessions: Seq<SessionView>, projects: Map<Seq<char>, ProjectId>) -> Seq<
    PlanEntryView,
> {
    sessions.filter(|session: SessionView| is_misfiled(session, projects)).map_values(
        |session: SessionView| planned(session, projects),
    )
}

/// Plans the moves: only sessions whose project is not the one they should be
/// in are included.
fn build_plan(sessions: &Vec<NamedSession>, cache: &ProjectCache) -> (plan: Vec<PlanEntry>)
    requires
        covers(cache@, session_views(sessions@)),
    ensures
        plan_views(plan@) == plan_for(session_views(sessions@), cache@),
{
    let mut plan: Vec<PlanEntry> = Vec::new();
    let ghost all = session_views(sessions@);
    let mut i: usize = 0;
    proof {
        reveal(Seq::filter);
        assert(plan_views(plan@) =~= plan_for(all.take(0), cache@));
    }
    while i < sessions.len()
        invariant
            i <= sessions.len(),
            all == session_views(sessions@),
            covers(cache@, all),
            plan_views(plan@) == plan_for(all.take(i as int), cache@),
        decreases sessions.len() - i,
    {
        let session: &NamedSession = &sessions[i];
        let ghost before = plan@;
        let ghost front = all.take(i as int);
        let ghost next = all.take(i + 1);
        proof {
            reveal(Seq::filter);
            assert(all[i as int] == session@);
            assert(next.drop_last() =~= front);
            assert(next.last() == session@);
        }
        if let Some(new_project_id) = cache.projects.get(session.row.cwd.as_str()) {
            if new_project_id.key != session.row.project_id.key {
                let entry: PlanEntry = PlanEntry {
                    session_id: session.row.session_id,
                    session_text: session.row.session_text.clone(),
                    new_project_id: *new_project_id,
                    cwd: session.row.cwd.clone(),
                    project_name: path::listed_name(&session.base_name),
                };
                assert(entry@ == planned(session@, cache@));
                plan.push(entry);
                assert(plan_views(plan@) =~= plan_views(before).push(planned(session@, cache@)));
                assert(plan_for(next, cache@) =~= plan_for(front, cache@).push(
                    planned(session@, cache@),
                ));
            } else {
                assert(plan_for(next, cache@) =~= plan_for(front, cache@));
            }
        }
        i = i + 1;
    }
    assert(all.take(i as int) =~= all);
    plan
}

// --- Concluding -------------------------------------------------------------

/// What a run without any session to place prints.
pub const NO_SESSIONS: &'static str = "No sessions with a cwd found; nothing to reorg.\n";

/// What a run prints whose plan is empty.
pub const NOTHING_TO_DO: &'static str = "All sessions are already in the correct per-cwd project; nothing to do.\n";

/// The moves that carry out the plan, in its order.
pub open spec fn moves_of(plan: Seq<PlanEntryView>) -> Seq<(SessionId, ProjectId)> {
    plan.map_values(|entry: PlanEntryView| (entry.session_id, entry.new_project_id))
}

/// The table line of a planned move.
pub open spec fn plan_line(entry: PlanEntryView) -> Seq<char> {
    text::padded(entry.session_text, 38) + " "@ + text::padded(entry.project_name, 20) + " "@ + entry.cwd
        + "\n"@
}

/// The table lines of the plan, one after the other.
pub open spec fn plan_lines(plan: Seq<PlanEntryView>) -> Seq<char>
    decreases plan.len(),
{
    if plan.len() == 0 {
        Seq::empty()
    } else {
        plan_lines(plan.drop_last()) + plan_line(plan.last())
    }
}

/// What a dry run prints of a plan that is not empty.
pub open spec fn dry_run_text(plan: Seq<PlanEntryView>) -> Seq<char> {
    text::decimal_text(plan.len()) + " session(s) would be moved:\n\n"@ + text::padded("session_id"@, 38)
        + " "@ + text::padded("new_project"@, 20) + " cwd\n"@ + text::repeated("-"@, 80) + "\n"@ + plan_lines(
        plan,
    ) + "\n(dry-run; omit --dry-run to apply)\n"@
}

/// The plan as a table.
fn dry_run_report(plan: &Vec<PlanEntry>) -> (text: String)
    ensures
        text@ == dry_run_text(plan_views(plan@)),
{
    let ghost all = plan_views(plan@);
    let mut out: String = text::decimal(plan.len() as u64);
    out.append(" session(s) would be moved:\n\n");
    text::append_padded(&mut out, "session_id", 38);
    out.append(" ");
    text::append_padded(&mut out, "new_project", 20);
    out.append(" cwd\n");
    text::append_repeated(&mut out, "-", 80);
    out.append("\n");
    let ghost head = out@;
    let mut i: usize = 0;
    assert(all.take(0) =~= Seq::empty());
    while i < plan.len()
        invariant
            i <= plan.len(),
            all == plan_views(plan@),
            out@ =~= head + plan_lines(all.take(i as int)),
        decreases plan.len() - i,
    {
        let entry: &PlanEntry = &plan[i];
        let ghost before = out@;
        text::append_padded(&mut out, entry.session_text.as_str(), 38);
        out.append(" ");
        text::append_padded(&mut out, entry.project_name.as_str(), 20);
        out.append(" ");
        out.append(entry.cwd.as_str());
        out.append("\n");
        proof {
            assert(out@ =~= before + plan_line(entry@));
            assert(all.take(i + 1).drop_last() =~= all.take(i as int));
            assert(all.take(i + 1).last() == entry@);
        }
        i = i + 1;
    }
    assert(all.take(i as int) =~= all);
    out.append("\n(dry-run; omit --dry-run to apply)\n");
    out
}

/// What the store reports of the moves it made.
pub struct ReorgSummary {
    pub sessions_moved: u64,
    pub observations_updated: u64,
    pub pages_graveyarded: u64,
}

/// The projects that the plan moves sessions to.
pub open spec fn target_projects(plan: Seq<PlanEntryView>) -> Set<ProjectId> {
    plan.map_values(|entry: PlanEntryView| entry.new_project_id).to_set()
}

/// What a run prints that moved its sessions.
pub open spec fn summary_text(summary: ReorgSummary, distinct_projects: nat) -> Seq<char> {
    "Reorg complete:\n"@ + "  sessions moved:        "@ + text::decimal_text(
        summary.sessions_moved as nat,
    ) + "\n  observations updated:  "@ + text::decimal_text(summary.observations_updated as nat)
        + "\n  pages graveyarded:     "@ + text::decimal_text(summary.pages_graveyarded as nat)
        + "\n  distinct new projects: "@ + text::decimal_text(distinct_projects) + "\n"@
}

/// How many distinct projects the plan moves sessions to.
fn distinct_projects(plan: &Vec<PlanEntry>) -> (count: usize)
    ensures
        count == target_projects(plan_views(plan@)).len(),
{
    let mut keys: HashSet<u128> = HashSet::new();
    let ghost targets = plan_views(plan@).map_values(|entry: PlanEntryView| entry.new_project_id);
    let mut i: usize = 0;
    while i < plan.len()
        invariant
            i <= plan.len(),
            targets == plan_views(plan@).map_values(|entry: PlanEntryView| entry.new_project_id),
            forall|j: int| 0 <= j < i ==> keys@.contains((#[trigger] targets[j]).key),
            forall|key: u128| #[trigger]
                keys@.contains(key) ==> exists|j: int|
                    0 <= j < i && (#[trigger] targets[j]).key == key,
        decreases plan.len() - i,
    {
        let ghost before = keys@;
        keys.insert(plan[i].new_project_id.key);
        assert(targets[i as int] == plan@[i as int].new_project_id);
        assert(keys@ == before.insert(targets[i as int].key));
        i = i + 1;
    }
    proof {
        let projects = targets.to_set();
        let key_of = |project: ProjectId| project.key;
        vstd::seq_lib::seq_to_set_is_finite(targets);
        assert forall|key: u128| #[trigger]
            projects.map(key_of).contains(key) <==> keys@.contains(key) by {
            if keys@.contains(key) {
                let j = choose|j: int| 0 <= j < i && (#[trigger] targets[j]).key == key;
                assert(projects.contains(targets[j]));
                assert(key_of(targets[j]) == key);
            }
            if projects.map(key_of).contains(key) {
                let project = choose|project: ProjectId|
                    projects.contains(project) && key == key_of(project);
                let j = choose|j: int| 0 <= j < targets.len() && targets[j] == project;
                assert(keys@.contains(targets[j].key));
            }
        }
        assert(projects.map(key_of) =~= keys@);
        vstd::set_lib::lemma_map_size(projects, keys@, key_of);
    }
    keys.len()
}

/// The closing report of a run that moved its sessions.
fn summary_report(summary: &ReorgSummary, plan: &Vec<PlanEntry>) -> (report: String)
    ensures
        report@ == summary_text(*summary, target_projects(plan_views(plan@)).len()),
{
    let projects: usize = distinct_projects(plan);
    let mut out: String = "Reorg complete:\n".to_owned();
    out.append("  sessions moved:        ");
    out.append(text::decimal(summary.sessions_moved).as_str());
    out.append("\n  observations updated:  ");
    out.append(text::decimal(summary.observations_updated).as_str());
    out.append("\n  pages graveyarded:     ");
    out.append(text::decimal(summary.pages_graveyarded).as_str());
    out.append("\n  distinct new projects: ");
    out.append(text::decimal(projects as u64).as_str());
    out.append("\n");
    out
}

// --- The run ------------------------------------------------------------------

/// How far a run has come: what it works on, and the projects that the store
/// has answered its requests with so far.
pub struct RunView {
    pub workspace_id: WorkspaceId,
    pub sessions: Seq<SessionView>,
    pub dry_run: bool,
    pub answers: Seq<ProjectId>,
}

/// What is to be done next.
pub enum StepView {
    /// Ask the store for the project of the next directory.
    Resolve(RunView),
    /// Carry out the plan.
    Move(Seq<PlanEntryView>),
    /// Print the text; the run is over.
    Print(Seq<char>),
}

impl RunView {
    /// All requests of the run, in order.
    pub open spec fn requests(self) -> Seq<ProjectRequestView> {
        requests_for(self.workspace_id, self.sessions)
    }

    /// The projects that the answers so far give.
    pub open spec fn projects(self) -> Map<Seq<char>, ProjectId> {
        projects_after(first_occurrences(cwds(self.sessions)), self.answers)
    }

    /// The plan that the answers so far give.
    pub open spec fn plan(self) -> Seq<PlanEntryView> {
        plan_for(self.sessions, self.projects())
    }

    /// The next step: without sessions there is nothing to do; otherwise
    /// every request is made first. Then an empty plan and a dry run are only
    /// reported, and any other plan is carried out.
    pub open spec fn next_step(self) -> StepView {
        if self.sessions.len() == 0 {
            StepView::Print(NO_SESSIONS@)
        } else if self.answers.len() < self.requests().len() {
            StepView::Resolve(self)
        } else if self.plan().len() == 0 {
            StepView::Print(NOTHING_TO_DO@)
        } else if self.dry_run {
            StepView::Print(dry_run_text(self.plan()))
        } else {
            StepView::Move(self.plan())
        }
    }

    /// The run after one more answer.
    pub open spec fn answered(self, project_id: ProjectId) -> RunView {
        RunView { answers: self.answers.push(project_id), ..self }
    }
}

/// What is to be done next.
pub enum ReorgStep {
    /// Ask the store for a project.
    Resolve(PendingProject),
    /// Have the store move sessions.
    Move(PendingMove),
    /// Print the text; the run is over.
    Print(String),
}

impl View for ReorgStep {
    type V = StepView;

    open spec fn view(&self) -> StepView {
        match self {
            ReorgStep::Resolve(pending) => StepView::Resolve(pending@),
            ReorgStep::Move(pending) => StepView::Move(pending@),
            ReorgStep::Print(text) => StepView::Print(text@),
        }
    }
}

struct Reorg {
    workspace_id: WorkspaceId,
    sessions: Vec<NamedSession>,
    dry_run: bool,
    requests: Vec<ProjectRequest>,
    answered: usize,
    cache: ProjectCache,
    answers: Ghost<Seq<ProjectId>>,
}

impl View for Reorg {
    type V = RunView;

    closed spec fn view(&self) -> RunView {
        RunView {
            workspace_id: self.workspace_id,
            sessions: session_views(self.sessions@),
            dry_run: self.dry_run,
            answers: self.answers@,
        }
    }
}

/// The first `n` directories that the run asks for.
spec fn asked(run: RunView, n: int) -> Seq<Seq<char>> {
    first_occurrences(cwds(run.sessions)).take(n)
}

impl Reorg {
    spec fn sound(self) -> bool {
        &&& request_views(self.requests@) == self@.requests()
        &&& self.answered <= self.requests.len()
        &&& self.answers@.len() == self.answered
        &&& self.cache@ == projects_after(asked(self@, self.answered as int), self.answers@)
    }

    fn resume(self) -> (step: ReorgStep)
        requires
            self.sound(),
        ensures
            step@ == self@.next_step(),
    {
        if self.sessions.is_empty() {
            return ReorgStep::Print(NO_SESSIONS.to_owned());
        }
        assert(request_views(self.requests@).len() == self.requests@.len());
        if self.answered < self.requests.len() {
            return ReorgStep::Resolve(PendingProject { run: self });
        }
        proof {
            let firsts = first_occurrences(cwds(self@.sessions));
            lemma_request_dirs(self@.workspace_id, self@.sessions);
            assert(asked(self@, self.answered as int) =~= firsts);
            law_answers_cover_the_sessions(
                self@.workspace_id,
                self@.sessions,
                self@.answers,
            );
        }
        let plan: Vec<PlanEntry> = build_plan(&self.sessions, &self.cache);
        assert(plan_views(plan@).len() == plan@.len());
        if plan.is_empty() {
            ReorgStep::Print(NOTHING_TO_DO.to_owned())
        } else if self.dry_run {
            ReorgStep::Print(dry_run_report(&plan))
        } else {
            ReorgStep::Move(PendingMove { plan })
        }
    }
}

/// A run that waits for the project of its next directory.
pub struct PendingProject {
    run: Reorg,
}

/// A run that waits for its plan to be carried out.
pub struct PendingMove {
    plan: Vec<PlanEntry>,
}

/// The run over the sessions that the store has not been asked anything about.
pub open spec fn fresh(
    workspace_id: WorkspaceId,
    sessions: Seq<SessionView>,
    dry_run: bool,
) -> RunView {
    RunView { workspace_id, sessions, dry_run, answers: Seq::empty() }
}

/// Runs a reorganisation of a workspace's sessions up to the first thing that
/// has to be done outside.
pub fn run(workspace_id: WorkspaceId, sessions: Vec<SessionRow>, dry_run: bool) -> (step: ReorgStep)
    ensures
        exists|named: Seq<NamedSession>| #[trigger]
            are_named(named, sessions@) && step@ == fresh(
                workspace_id,
                session_views(named),
                dry_run,
            ).next_step(),
{
    run_named(workspace_id, name_sessions(sessions), dry_run)
}

/// Runs a reorganisation of sessions whose directories' file names are known.
pub fn run_named(workspace_id: WorkspaceId, sessions: Vec<NamedSession>, dry_run: bool) -> (step:
    ReorgStep)
    ensures
        step@ == fresh(workspace_id, session_views(sessions@), dry_run).next_step(),
{
    let requests: Vec<ProjectRequest> = project_requests(workspace_id, &sessions);
    let run: Reorg = Reorg {
        workspace_id,
        sessions,
        dry_run,
        requests,
        answered: 0,
        cache: ProjectCache::new(),
        answers: Ghost(Seq::empty()),
    };
    assert(asked(run@, 0) =~= Seq::empty());
    run.resume()
}

impl View for PendingProject {
    type V = RunView;

    closed spec fn view(&self) -> RunView {
        self.run@
    }
}

impl PendingProject {
    #[verifier::type_invariant]
    spec fn well_formed(self) -> bool {
        self.run.sound() && self.run.answered < self.run.requests.len()
    }

    /// The project to ask for.
    pub fn request(&self) -> (request: &ProjectRequest)
        ensures
            request@ == self@.requests()[self@.answers.len() as int],
    {
        proof {
            use_type_invariant(self);
            let k = self.run.answered as int;
            assert(request_views(self.run.requests@)[k] == self.run.requests@[k]@);
        }
        &self.run.requests[self.run.answered]
    }

    /// Goes on with the project that the store found or created.
    pub fn resolved(self, project_id: ProjectId) -> (step: ReorgStep)
        ensures
            step@ == self@.answered(project_id).next_step(),
    {
        proof {
            use_type_invariant(&self);
        }
        let mut run: Reorg = self.run;
        let ghost before = run@;
        let ghost k = run.answered as int;
        proof {
            let firsts = first_occurrences(cwds(before.sessions));
            lemma_request_dirs(before.workspace_id, before.sessions);
            assert(request_views(run.requests@)[k] == run.requests@[k]@);
            assert(run.requests@[k].cwd@ == firsts[k]);
            assert(asked(before, k + 1).drop_last() =~= asked(before, k));
            assert(asked(before, k + 1).last() == firsts[k]);
            assert(before.answers.push(project_id).drop_last() =~= before.answers);
        }
        run.cache.record(&run.requests[run.answered], project_id);
        run.answered = run.answered + 1;
        run.answers = Ghost(run.answers@.push(project_id));
        assert(run@ == before.answered(project_id));
        run.resume()
    }
}

impl View for PendingMove {
    type V = Seq<PlanEntryView>;

    closed spec fn view(&self) -> Seq<PlanEntryView> {
        plan_views(self.plan@)
    }
}

impl PendingMove {
    /// The moves to make, all in one transaction.
    pub fn moves(&self) -> (moves: Vec<(SessionId, ProjectId)>)
        ensures
            moves@ == moves_of(self@),
            moves@.len() == self@.len(),
            forall|i: int|
                0 <= i < moves@.len() ==> #[trigger] moves@[i] == (
                    self@[i].session_id,
                    self@[i].new_project_id,
                ),
    {
        let mut moves: Vec<(SessionId, ProjectId)> = Vec::new();
        let mut i: usize = 0;
        while i < self.plan.len()
            invariant
                i <= self.plan.len(),
                moves@ =~= moves_of(self@).take(i as int),
            decreases self.plan.len() - i,
        {
            moves.push((self.plan[i].session_id, self.plan[i].new_project_id));
            i = i + 1;
        }
        moves
    }

    /// How many distinct projects sessions are moved to.
    pub fn distinct_projects(&self) -> (count: usize)
        ensures
            count == target_projects(self@).len(),
    {
        distinct_projects(&self.plan)
    }

    /// The closing report, given what the store reports of the moves.
    pub fn moved(self, summary: &ReorgSummary) -> (report: String)
        ensures
            report@ == summary_text(*summary, target_projects(self@).len()),
    {
        summary_report(summary, &self.plan)
    }
}

// --- Laws -------------------------------------------------------------------

/// The project that the session `id` is filed under after `moves`, when it
/// was filed under `current` before.
pub open spec fn project_after(
    id: SessionId,
    current: ProjectId,
    moves: Seq<(SessionId, ProjectId)>,
) -> ProjectId
    decreases moves.len(),
{
    if moves.len() == 0 {
        current
    } else if moves.last().0 == id {
        moves.last().1
    } else {
        project_after(id, current, moves.drop_last())
    }
}

/// The sessions after `moves`: each is filed under the project it was last
/// moved to, and nothing else about it changes.
pub open spec fn after_moves(
    sessions: Seq<SessionView>,
    moves: Seq<(SessionId, ProjectId)>,
) -> Seq<SessionView> {
    sessions.map_values(
        |session: SessionView|
            SessionView {
                project_id: project_after(session.session_id, session.project_id, moves),
                ..session
            },
    )
}

/// Whether a session key stands for one working directory.
pub open spec fn keys_are_sound(sessions: Seq<SessionView>) -> bool {
    forall|i: int, j: int|
        0 <= i < sessions.len() && 0 <= j < sessions.len() && (#[trigger] sessions[i]).session_id
            == (#[trigger] sessions[j]).session_id ==> sessions[i].cwd == sessions[j].cwd
}

/// The projects known once the requests for `dirs` have been answered, in
/// order, by `answers`.
pub open spec fn projects_after(dirs: Seq<Seq<char>>, answers: Seq<ProjectId>) -> Map<
    Seq<char>,
    ProjectId,
>
    decreases dirs.len(),
{
    if dirs.len() == 0 {
        Map::empty()
    } else {
        projects_after(dirs.drop_last(), answers.drop_last()).insert(dirs.last(), answers.last())
    }
}

proof fn lemma_first_occurrences(items: Seq<Seq<char>>)
    ensures
        first_occurrences(items).no_duplicates(),
        forall|item: Seq<char>| #[trigger]
            first_occurrences(items).contains(item) <==> items.contains(item),
    decreases items.len(),
{
    if items.len() > 0 {
        let front = items.drop_last();
        let before = first_occurrences(front);
        lemma_first_occurrences(front);
        assert forall|item: Seq<char>| #[trigger]
            first_occurrences(items).contains(item) <==> items.contains(item) by {
            if items.contains(item) {
                let k = choose|k: int| 0 <= k < items.len() && items[k] == item;
                if k < front.len() {
                    assert(front[k] == item);
                    assert(before.contains(item));
                    let m = choose|m: int| 0 <= m < before.len() && before[m] == item;
                    assert(first_occurrences(items)[m] == item);
                } else if front.contains(item) {
                    assert(before.contains(item));
                } else {
                    assert(first_occurrences(items)[before.len() as int] == item);
                }
            }
            if first_occurrences(items).contains(item) {
                let m = choose|m: int|
                    0 <= m < first_occurrences(items).len() && first_occurrences(items)[m] == item;
                if m < before.len() {
                    assert(before.contains(before[m]));
                    let k = choose|k: int| 0 <= k < front.len() && front[k] == item;
                    assert(items[k] == item);
                } else {
                    assert(items[items.len() - 1] == item);
                }
            }
        }
        if !front.contains(items.last()) {
            assert(!before.contains(items.last()));
        }
    }
}

/// The requests are for the distinct directories.
proof fn lemma_first_sessions(sessions: Seq<SessionView>)
    ensures
        cwds(first_sessions(sessions)) == first_occurrences(cwds(sessions)),
    decreases sessions.len(),
{
    if sessions.len() > 0 {
        lemma_first_sessions(sessions.drop_last());
        assert(cwds(sessions).drop_last() =~= cwds(sessions.drop_last()));
        let before = first_sessions(sessions.drop_last());
        assert(cwds(before.push(sessions.last())) =~= cwds(before).push(sessions.last().cwd));
    } else {
        assert(cwds(sessions) =~= Seq::empty());
        assert(cwds(first_sessions(sessions)) =~= Seq::empty());
    }
}

proof fn lemma_request_dirs(workspace_id: WorkspaceId, sessions: Seq<SessionView>)
    ensures
        ({
            let requests = requests_for(workspace_id, sessions);
            let firsts = first_occurrences(cwds(sessions));
            &&& requests.len() == firsts.len()
            &&& forall|i: int|
                0 <= i < requests.len() ==> (#[trigger] requests[i]).cwd == firsts[i]
        }),
{
    lemma_first_sessions(sessions);
    let requests = requests_for(workspace_id, sessions);
    assert forall|i: int| 0 <= i < requests.len() implies (
    #[trigger] requests[i]).cwd == first_occurrences(cwds(sessions))[i] by {
        assert(cwds(first_sessions(sessions))[i] == first_sessions(sessions)[i].cwd);
    }
}

/// The store is asked for the project of each directory exactly once: no two
/// requests are for the same directory, every session's directory has its
/// request, and no other directory has one.
pub proof fn law_one_request_per_directory(
    workspace_id: WorkspaceId,
    sessions: Seq<SessionView>,
)
    ensures
        ({
            let requests = requests_for(workspace_id, sessions);
            &&& forall|i: int, j: int|
                0 <= i < j < requests.len() ==> (#[trigger] requests[i]).cwd != (
                #[trigger] requests[j]).cwd
            &&& forall|k: int|
                0 <= k < sessions.len() ==> exists|i: int|
                    0 <= i < requests.len() && (#[trigger] requests[i]).cwd == (
                    #[trigger] sessions[k]).cwd
            &&& forall|i: int|
                0 <= i < requests.len() ==> exists|k: int|
                    0 <= k < sessions.len() && (#[trigger] sessions[k]).cwd == (
                    #[trigger] requests[i]).cwd
        }),
{
    let dirs = cwds(sessions);
    let firsts = first_occurrences(dirs);
    let requests = requests_for(workspace_id, sessions);
    lemma_first_occurrences(dirs);
    lemma_request_dirs(workspace_id, sessions);
    assert forall|k: int| 0 <= k < sessions.len() implies exists|i: int|
        0 <= i < requests.len() && (#[trigger] requests[i]).cwd == (
        #[trigger] sessions[k]).cwd by {
        assert(dirs[k] == sessions[k].cwd);
        assert(dirs.contains(sessions[k].cwd));
        assert(firsts.contains(sessions[k].cwd));
        let i = choose|i: int| 0 <= i < firsts.len() && firsts[i] == sessions[k].cwd;
        assert(requests[i].cwd == sessions[k].cwd);
    }
    assert forall|i: int| 0 <= i < requests.len() implies exists|k: int|
        0 <= k < sessions.len() && (#[trigger] sessions[k]).cwd == (
        #[trigger] requests[i]).cwd by {
        assert(firsts.contains(firsts[i]));
        let k = choose|k: int| 0 <= k < dirs.len() && dirs[k] == firsts[i];
        assert(sessions[k].cwd == requests[i].cwd);
    }
}

proof fn lemma_projects_after(dirs: Seq<Seq<char>>, answers: Seq<ProjectId>)
    requires
        dirs.len() == answers.len(),
        dirs.no_duplicates(),
    ensures
        forall|cwd: Seq<char>| #[trigger]
            projects_after(dirs, answers).contains_key(cwd) <==> dirs.contains(cwd),
        forall|i: int|
            0 <= i < dirs.len() ==> projects_after(dirs, answers)[#[trigger] dirs[i]]
                == answers[i],
    decreases dirs.len(),
{
    if dirs.len() > 0 {
        let front = dirs.drop_last();
        lemma_projects_after(front, answers.drop_last());
        assert forall|cwd: Seq<char>| #[trigger]
            projects_after(dirs, answers).contains_key(cwd) <==> dirs.contains(cwd) by {
            assert(projects_after(front, answers.drop_last()).contains_key(cwd)
                <==> front.contains(cwd));
            if dirs.contains(cwd) {
                let k = choose|k: int| 0 <= k < dirs.len() && dirs[k] == cwd;
                if k < front.len() {
                    assert(front[k] == cwd);
                    assert(front.contains(cwd));
                }
            }
            if front.contains(cwd) {
                let k = choose|k: int| 0 <= k < front.len() && front[k] == cwd;
                assert(dirs[k] == cwd);
            }
            if cwd == dirs.last() {
                assert(dirs[dirs.len() - 1] == cwd);
            }
        }
        assert forall|i: int| 0 <= i < dirs.len() implies projects_after(dirs, answers)[
        #[trigger] dirs[i]] == answers[i] by {
            if i < front.len() {
                assert(front[i] == dirs[i]);
                assert(dirs[i] != dirs[dirs.len() - 1]);
            }
        }
    }
}

/// Once every request is answered, every session has its project, and a
/// directory's project is the answer to the request for it.
pub proof fn law_answers_cover_the_sessions(
    workspace_id: WorkspaceId,
    sessions: Seq<SessionView>,
    answers: Seq<ProjectId>,
)
    requires
        answers.len() == requests_for(workspace_id, sessions).len(),
    ensures
        ({
            let requests = requests_for(workspace_id, sessions);
            let projects = projects_after(first_occurrences(cwds(sessions)), answers);
            &&& covers(projects, sessions)
            &&& forall|i: int|
                0 <= i < requests.len() ==> projects[(#[trigger] requests[i]).cwd] == answers[i]
        }),
{
    let dirs = cwds(sessions);
    let firsts = first_occurrences(dirs);
    let projects = projects_after(firsts, answers);
    let requests = requests_for(workspace_id, sessions);
    lemma_first_occurrences(dirs);
    lemma_request_dirs(workspace_id, sessions);
    lemma_projects_after(firsts, answers);
    assert forall|i: int| 0 <= i < sessions.len() implies projects.contains_key(
        (#[trigger] sessions[i]).cwd,
    ) by {
        assert(dirs[i] == sessions[i].cwd);
        assert(dirs.contains(sessions[i].cwd));
        assert(firsts.contains(sessions[i].cwd));
    }
    assert forall|i: int| 0 <= i < requests.len() implies projects[(
    #[trigger] requests[i]).cwd] == answers[i] by {
        assert(requests[i].cwd == firsts[i]);
    }
}

proof fn lemma_project_after(
    id: SessionId,
    current: ProjectId,
    moves: Seq<(SessionId, ProjectId)>,
    target: ProjectId,
)
    requires
        forall|k: int| 0 <= k < moves.len() && (#[trigger] moves[k]).0 == id ==> moves[k].1 == target,
        current == target || exists|k: int| 0 <= k < moves.len() && (#[trigger] moves[k]).0 == id,
    ensures
        project_after(id, current, moves) == target,
    decreases moves.len(),
{
    if moves.len() > 0 {
        if moves.last().0 == id {
            assert(moves[moves.len() - 1].1 == target);
        } else {
            let front = moves.drop_last();
            assert forall|k: int| 0 <= k < front.len() && (
            #[trigger] front[k]).0 == id implies front[k].1 == target by {
                assert(moves[k] == front[k]);
            }
            if current != target {
                let k = choose|k: int| 0 <= k < moves.len() && (#[trigger] moves[k]).0 == id;
                assert(front[k] == moves[k]);
            }
            lemma_project_after(id, current, front, target);
        }
    }
}

/// Carrying out the plan files every session under the project of its working
/// directory, and changes neither its key nor its directory.
pub proof fn law_every_session_lands_in_its_project(
    sessions: Seq<SessionView>,
    projects: Map<Seq<char>, ProjectId>,
)
    requires
        keys_are_sound(sessions),
    ensures
        ({
            let after = after_moves(sessions, moves_of(plan_for(sessions, projects)));
            &&& after.len() == sessions.len()
            &&& forall|i: int|
                0 <= i < sessions.len() ==> {
                    &&& (#[trigger] after[i]).project_id == projects[sessions[i].cwd]
                    &&& after[i].session_id == sessions[i].session_id
                    &&& after[i].cwd == sessions[i].cwd
                }
        }),
{
    let misfiled = |session: SessionView| is_misfiled(session, projects);
    let chosen = sessions.filter(misfiled);
    let plan = plan_for(sessions, projects);
    let moves = moves_of(plan);
    let after = after_moves(sessions, moves);
    assert forall|i: int| 0 <= i < sessions.len() implies (
    #[trigger] after[i]).project_id == projects[sessions[i].cwd] by {
        let session = sessions[i];
        assert forall|k: int| 0 <= k < moves.len() && (
        #[trigger] moves[k]).0 == session.session_id implies moves[k].1
            == projects[session.cwd] by {
            lemma_filter_origin(sessions, misfiled, k);
            let j = choose|j: int| 0 <= j < sessions.len() && sessions[j] == chosen[k];
            assert(plan[k] == planned(chosen[k], projects));
            assert(sessions[j].session_id == sessions[i].session_id);
        }
        if misfiled(session) {
            sessions.lemma_filter_contains(misfiled, i);
            let k = choose|k: int| 0 <= k < chosen.len() && chosen[k] == session;
            assert(moves[k].0 == session.session_id);
        }
        lemma_project_after(
            session.session_id,
            session.project_id,
            moves,
            projects[session.cwd],
        );
    }
}

proof fn lemma_filter_origin(
    sessions: Seq<SessionView>,
    keep: spec_fn(SessionView) -> bool,
    k: int,
)
    requires
        0 <= k < sessions.filter(keep).len(),
    ensures
        exists|j: int| 0 <= j < sessions.len() && sessions[j] == sessions.filter(keep)[k],
        keep(sessions.filter(keep)[k]),
{
    let kept = sessions.filter(keep);
    assert(kept.contains(kept[k]));
    sessions.lemma_filter_contains_rev(keep, kept[k]);
    sessions.lemma_filter_pred(keep, k);
}

/// The plan is empty exactly when every session is where it should be.
pub proof fn law_no_plan_means_all_settled(
    sessions: Seq<SessionView>,
    projects: Map<Seq<char>, ProjectId>,
)
    ensures
        plan_for(sessions, projects).len() == 0 <==> forall|i: int|
            0 <= i < sessions.len() ==> (#[trigger] sessions[i]).project_id
                == projects[sessions[i].cwd],
{
    let misfiled = |session: SessionView| is_misfiled(session, projects);
    let chosen = sessions.filter(misfiled);
    if chosen.len() > 0 {
        lemma_filter_origin(sessions, misfiled, 0);
        let j = choose|j: int| 0 <= j < sessions.len() && sessions[j] == chosen[0];
        assert(sessions[j].project_id != projects[sessions[j].cwd]);
    }
    assert forall|i: int| 0 <= i < sessions.len() && chosen.len() == 0 implies (
    #[trigger] sessions[i]).project_id == projects[sessions[i].cwd] by {
        if misfiled(sessions[i]) {
            sessions.lemma_filter_contains(misfiled, i);
        }
    }
}

/// Whether the entry moves one of the misfiled sessions.
pub open spec fn moves_a_misfiled_session(
    entry: PlanEntryView,
    sessions: Seq<SessionView>,
    projects: Map<Seq<char>, ProjectId>,
) -> bool {
    exists|i: int|
        0 <= i < sessions.len() && is_misfiled(#[trigger] sessions[i], projects) && entry
            == planned(sessions[i], projects)
}

/// Sessions already in the right project are skipped: every entry of the plan
/// is for a session that is filed under another project than its directory's,
/// and every such session has its entry.
pub proof fn law_plan_holds_the_misfiled_sessions(
    sessions: Seq<SessionView>,
    projects: Map<Seq<char>, ProjectId>,
)
    ensures
        ({
            let plan = plan_for(sessions, projects);
            &&& forall|k: int|
                0 <= k < plan.len() ==> moves_a_misfiled_session(
                    #[trigger] plan[k],
                    sessions,
                    projects,
                )
            &&& forall|i: int|
                0 <= i < sessions.len() && is_misfiled(#[trigger] sessions[i], projects)
                    ==> plan.contains(planned(sessions[i], projects))
        }),
{
    let misfiled = |session: SessionView| is_misfiled(session, projects);
    let chosen = sessions.filter(misfiled);
    let plan = plan_for(sessions, projects);
    assert forall|k: int| 0 <= k < plan.len() implies moves_a_misfiled_session(
        #[trigger] plan[k],
        sessions,
        projects,
    ) by {
        lemma_filter_origin(sessions, misfiled, k);
        let i = choose|i: int| 0 <= i < sessions.len() && sessions[i] == chosen[k];
        assert(plan[k] == planned(sessions[i], projects));
    }
    assert forall|i: int|
        0 <= i < sessions.len() && is_misfiled(
            #[trigger] sessions[i],
            projects,
        ) implies plan.contains(planned(sessions[i], projects)) by {
        sessions.lemma_filter_contains(misfiled, i);
        let k = choose|k: int| 0 <= k < chosen.len() && chosen[k] == sessions[i];
        assert(plan[k] == planned(sessions[i], projects));
    }
}

/// Sessions are only moved to projects that the store has named.
pub proof fn law_moves_go_to_named_projects(run: RunView, k: int)
    requires
        run.answers.len() == run.requests().len(),
        0 <= k < run.plan().len(),
    ensures
        run.answers.contains(run.plan()[k].new_project_id),
{
    let requests = run.requests();
    law_plan_holds_the_misfiled_sessions(run.sessions, run.projects());
    law_one_request_per_directory(run.workspace_id, run.sessions);
    law_answers_cover_the_sessions(run.workspace_id, run.sessions, run.answers);
    assert(moves_a_misfiled_session(run.plan()[k], run.sessions, run.projects()));
    let i = choose|i: int|
        0 <= i < run.sessions.len() && is_misfiled(#[trigger] run.sessions[i], run.projects())
            && run.plan()[k] == planned(run.sessions[i], run.projects());
    let r = choose|r: int|
        0 <= r < requests.len() && (#[trigger] requests[r]).cwd == run.sessions[i].cwd;
    assert(run.projects()[requests[r].cwd] == run.answers[r]);
}

/// What is asked for rests on the directories and their file names alone.
proof fn lemma_same_requests(
    workspace_id: WorkspaceId,
    sessions: Seq<SessionView>,
    others: Seq<SessionView>,
)
    requires
        sessions.len() == others.len(),
        forall|i: int|
            0 <= i < sessions.len() ==> (#[trigger] others[i]).cwd == sessions[i].cwd
                && others[i].base_name == sessions[i].base_name,
    ensures
        requests_for(workspace_id, others) == requests_for(workspace_id, sessions),
    decreases sessions.len(),
{
    if sessions.len() > 0 {
        let front = sessions.drop_last();
        let other_front = others.drop_last();
        lemma_same_requests(workspace_id, front, other_front);
        assert(cwds(other_front) =~= cwds(front));
        let last = sessions.last();
        let other_last = others[sessions.len() - 1];
        assert(request_for(workspace_id, other_last) == request_for(workspace_id, last));
        let ask = |session: SessionView| request_for(workspace_id, session);
        assert(first_sessions(front).push(last).map_values(ask) =~= first_sessions(
            front,
        ).map_values(ask).push(request_for(workspace_id, last)));
        assert(first_sessions(other_front).push(other_last).map_values(ask) =~= first_sessions(
            other_front,
        ).map_values(ask).push(request_for(workspace_id, last)));
    } else {
        assert(others =~= sessions);
    }
}

/// The operation is idempotent: run again on the sessions that its moves left
/// behind, it asks for the same projects, and once it has the same answers it
/// finds nothing to move.
pub proof fn law_reorg_is_idempotent(run: RunView)
    requires
        keys_are_sound(run.sessions),
        run.answers.len() == run.requests().len(),
    ensures
        ({
            let again = RunView { sessions: after_moves(run.sessions, moves_of(run.plan())), ..run };
            &&& again.requests() == run.requests()
            &&& again.plan().len() == 0
            &&& again.next_step() == StepView::Print(
                if run.sessions.len() == 0 {
                    NO_SESSIONS@
                } else {
                    NOTHING_TO_DO@
                },
            )
        }),
{
    let again = RunView { sessions: after_moves(run.sessions, moves_of(run.plan())), ..run };
    law_every_session_lands_in_its_project(run.sessions, run.projects());
    assert(cwds(again.sessions) =~= cwds(run.sessions));
    lemma_same_requests(run.workspace_id, run.sessions, again.sessions);
    law_no_plan_means_all_settled(again.sessions, again.projects());
}

/// A dry run never moves a session, and no run moves one before the store has
/// named the project of every directory.
pub proof fn law_moves_need_leave_and_answers(run: RunView)
    ensures
        run.next_step() is Move ==> {
            &&& !run.dry_run
            &&& run.answers.len() >= run.requests().len()
            &&& run.next_step() == StepView::Move(run.plan())
            &&& run.plan().len() > 0
        },
{
}

/// A dry run prints exactly what a real run with the same answers would move:
/// it makes the same requests, and where the real run goes on to carry out a
/// plan, it prints that plan, one line per move and in the order of the moves,
/// and ends. Where there is nothing to move, both print the same.
pub proof fn law_dry_run_prints_what_would_move(run: RunView)
    ensures
        ({
            let dry = RunView { dry_run: true, ..run };
            let moving = RunView { dry_run: false, ..run };
            &&& dry.requests() == moving.requests()
            &&& dry.next_step() == match moving.next_step() {
                StepView::Resolve(_) => StepView::Resolve(dry),
                StepView::Move(plan) => StepView::Print(dry_run_text(plan)),
                StepView::Print(text) => StepView::Print(text),
            }
        }),
{
}

/// A run makes at most one request per session.
pub proof fn law_requests_are_bounded(workspace_id: WorkspaceId, sessions: Seq<SessionView>)
    ensures
        requests_for(workspace_id, sessions).len() <= sessions.len(),
{
    lemma_request_dirs(workspace_id, sessions);
    lemma_first_occurrences_len(cwds(sessions));
}

/// Every answer brings a run closer to its end: it leaves the requests as they
/// are and one less of them open.
pub proof fn law_every_answer_counts(run: RunView, project_id: ProjectId)
    requires
        run.next_step() is Resolve,
    ensures
        ({
            let next = run.answered(project_id);
            &&& next.requests() == run.requests()
            &&& next.workspace_id == run.workspace_id
            &&& next.sessions == run.sessions
            &&& next.dry_run == run.dry_run
            &&& next.answers == run.answers.push(project_id)
            &&& next.answers.len() == run.answers.len() + 1
            &&& next.next_step() is Resolve <==> next.answers.len() < run.requests().len()
        }),
{
}

proof fn lemma_first_occurrences_len(items: Seq<Seq<char>>)
    ensures
        first_occurrences(items).len() <= items.len(),
    decreases items.len(),
{
    if items.len() > 0 {
        lemma_first_occurrences_len(items.drop_last());
    }
}

/// Whether a directory has one file name, as it has on any one platform.
pub open spec fn names_are_sound(sessions: Seq<SessionView>) -> bool {
    forall|i: int, j: int|
        0 <= i < sessions.len() && 0 <= j < sessions.len() && (#[trigger] sessions[i]).cwd == (
        #[trigger] sessions[j]).cwd ==> sessions[i].base_name == sessions[j].base_name
}

/// Sessions of one directory are planned into one project, and where the
/// directory has one file name, they are listed under one name.
pub proof fn law_one_project_per_directory(
    sessions: Seq<SessionView>,
    projects: Map<Seq<char>, ProjectId>,
    i: int,
    j: int,
)
    requires
        0 <= i < plan_for(sessions, projects).len(),
        0 <= j < plan_for(sessions, projects).len(),
        plan_for(sessions, projects)[i].cwd == plan_for(sessions, projects)[j].cwd,
    ensures
        ({
            let plan = plan_for(sessions, projects);
            &&& plan[i].new_project_id == plan[j].new_project_id
            &&& names_are_sound(sessions) ==> plan[i].project_name == plan[j].project_name
        }),
{
    let misfiled = |session: SessionView| is_misfiled(session, projects);
    let chosen = sessions.filter(misfiled);
    lemma_filter_origin(sessions, misfiled, i);
    lemma_filter_origin(sessions, misfiled, j);
    let k = choose|k: int| 0 <= k < sessions.len() && sessions[k] == chosen[i];
    let m = choose|m: int| 0 <= m < sessions.len() && sessions[m] == chosen[j];
    assert(sessions[k].cwd == sessions[m].cwd);
}

/// Where every directory's path reads the same on every platform, what a run
/// does rests on its rows alone: however its sessions were named, it is the
/// same run.
pub proof fn law_portable_rows_settle_the_names(
    rows: Seq<SessionRow>,
    named: Seq<NamedSession>,
    others: Seq<NamedSession>,
)
    requires
        are_named(named, rows),
        are_named(others, rows),
        forall|i: int| 0 <= i < rows.len() ==> path::is_portable((#[trigger] rows[i]).cwd@),
    ensures
        session_views(named) == session_views(others),
        names_are_sound(session_views(named)),
{
    let views = session_views(named);
    assert forall|i: int| 0 <= i < rows.len() implies (#[trigger] views[i]).base_name
        == path::file_name_of(rows[i].cwd@) && session_views(others)[i] == views[i] by {
        assert(path::is_portable(rows[i].cwd@));
        assert(named[i].row == rows[i]);
        assert(others[i].row == rows[i]);
    }
    assert(session_views(others) =~= views);
}

/// A plan that is not empty moves sessions to at least one project, and to no
/// more projects than it moves sessions.
pub proof fn law_target_projects_bounded(plan: Seq<PlanEntryView>)
    requires
        plan.len() > 0,
    ensures
        1 <= target_projects(plan).len() <= plan.len(),
{
    let targets = plan.map_values(|entry: PlanEntryView| entry.new_project_id);
    targets.lemma_cardinality_of_set();
    targets.lemma_cardinality_of_empty_set_is_0();
}

/// A record is decoded as it is: the session has exactly the key, the text, the
/// project and the directory that the record holds. A record that could not be
/// read, or one of whose keys is none, gives that error and no session, and the
/// session's key is looked at first.
pub proof fn law_record_is_decoded_as_it_is<E>(record: Result<SessionRecord<E>, E>)
    ensures
        decoded(record) matches Ok(row) ==> {
            &&& record is Ok
            &&& record->Ok_0.session == Ok::<_, E>((row.session_id, row.session_text))
            &&& record->Ok_0.project_id == Ok::<_, E>(row.project_id)
            &&& record->Ok_0.cwd == row.cwd
        },
        decoded(record) matches Err(error) ==> {
            ||| record == Err::<SessionRecord<E>, _>(error)
            ||| record is Ok && record->Ok_0.session == Err::<(SessionId, String), _>(error)
            ||| {
                &&& record is Ok
                &&& record->Ok_0.session is Ok
                &&& record->Ok_0.project_id == Err::<ProjectId, _>(error)
            }
        },
        record is Ok && record->Ok_0.session is Ok && record->Ok_0.project_id is Ok ==> decoded(
            record,
        ) is Ok,
{
}

/// Different sessions stay different when they are decoded.
pub proof fn law_decoding_loses_no_key<E>(
    record: Result<SessionRecord<E>, E>,
    other: Result<SessionRecord<E>, E>,
)
    requires
        decoded(record) is Ok,
        decoded(other) is Ok,
    ensures
        record->Ok_0.session->Ok_0.0 != other->Ok_0.session->Ok_0.0 ==> decoded(
            record,
        )->Ok_0.session_id != decoded(other)->Ok_0.session_id,
        record->Ok_0.project_id->Ok_0 != other->Ok_0.project_id->Ok_0 ==> decoded(
            record,
        )->Ok_0.project_id != decoded(other)->Ok_0.project_id,
        record->Ok_0.cwd != other->Ok_0.cwd ==> decoded(record)->Ok_0.cwd != decoded(
            other,
        )->Ok_0.cwd,
{
}

/// Naming the sessions keeps the rows: as many sessions, in the same order,
/// each with its key, its text, its project and its directory.
pub proof fn law_naming_keeps_the_rows(named: Seq<NamedSession>, rows: Seq<SessionRow>, i: int)
    requires
        are_named(named, rows),
        0 <= i < rows.len(),
    ensures
        session_views(named).len() == rows.len(),
        session_views(named)[i].session_id == rows[i].session_id,
        session_views(named)[i].session_text == rows[i].session_text@,
        session_views(named)[i].project_id == rows[i].project_id,
        session_views(named)[i].cwd == rows[i].cwd@,
        path::can_be_file_name(session_views(named)[i].base_name, rows[i].cwd@),
{
    assert(named[i].row == rows[i]);
}

/// What is asked for and planned is read field by field: no view changes a
/// value or gives it to another field.
pub proof fn law_views_keep_every_field(
    sessions: Seq<NamedSession>,
    requests: Seq<ProjectRequest>,
    plan: Seq<PlanEntry>,
)
    ensures
        session_views(sessions).len() == sessions.len(),
        forall|i: int|
            0 <= i < sessions.len() ==> {
                let view = #[trigger] session_views(sessions)[i];
                &&& view.session_id == sessions[i].row.session_id
                &&& view.session_text == sessions[i].row.session_text@
                &&& view.project_id == sessions[i].row.project_id
                &&& view.cwd == sessions[i].row.cwd@
                &&& view.base_name is Some <==> sessions[i].base_name is Some
                &&& view.base_name is Some ==> view.base_name->0 == sessions[i].base_name->0@
            },
        request_views(requests).len() == requests.len(),
        forall|i: int|
            0 <= i < requests.len() ==> {
                let view = #[trigger] request_views(requests)[i];
                &&& view.workspace_id == requests[i].workspace_id
                &&& view.name == requests[i].name@
                &&& view.cwd == requests[i].cwd@
            },
        plan_views(plan).len() == plan.len(),
        forall|i: int|
            0 <= i < plan.len() ==> {
                let view = #[trigger] plan_views(plan)[i];
                &&& view.session_id == plan[i].session_id
                &&& view.session_text == plan[i].session_text@
                &&& view.new_project_id == plan[i].new_project_id
                &&& view.cwd == plan[i].cwd@
                &&& view.project_name == plan[i].project_name@
            },
{
}

/// A request says what its view says.
pub proof fn law_request_shows_its_fields(request: ProjectRequest)
    ensures
        request@.workspace_id == request.workspace_id,
        request@.name == request.name@,
        request@.cwd == request.cwd@,
{
}

/// A step shows what it hands out: the run that waits, the plan to carry out,
/// the text to print.
pub proof fn law_steps_show_what_they_hand_out(
    project: PendingProject,
    plan: PendingMove,
    text: String,
)
    ensures
        ReorgStep::Resolve(project)@ == StepView::Resolve(project@),
        ReorgStep::Move(plan)@ == StepView::Move(plan@),
        ReorgStep::Print(text)@ == StepView::Print(text@),
{
}

/// The requests follow the sessions: the directory of a request is the one of
/// the session at the place given for it, which no earlier session has, the
/// places go up, and the name that is asked for is the file name found for that
/// session, or `unknown`.
pub proof fn law_requests_follow_the_sessions(
    workspace_id: WorkspaceId,
    sessions: Seq<SessionView>,
) -> (places: Seq<int>)
    ensures
        ({
            let requests = requests_for(workspace_id, sessions);
            &&& places.len() == requests.len()
            &&& forall|r: int, q: int|
                0 <= r < q < places.len() ==> #[trigger] places[r] < #[trigger] places[q]
            &&& forall|r: int|
                0 <= r < requests.len() ==> {
                    let request = requests[r];
                    let place = #[trigger] places[r];
                    &&& 0 <= place < sessions.len()
                    &&& request.workspace_id == workspace_id
                    &&& request.cwd == sessions[place].cwd
                    &&& request.name == match sessions[place].base_name {
                        Some(name) if name.len() > 0 => name,
                        _ => "unknown"@,
                    }
                    &&& forall|j: int|
                        0 <= j < place ==> (#[trigger] sessions[j]).cwd != request.cwd
                }
        }),
    decreases sessions.len(),
{
    let requests = requests_for(workspace_id, sessions);
    if sessions.len() == 0 {
        Seq::empty()
    } else {
        let front = sessions.drop_last();
        let last = sessions.last();
        let before = law_requests_follow_the_sessions(workspace_id, front);
        let ask = |session: SessionView| request_for(workspace_id, session);
        let earlier = requests_for(workspace_id, front);
        if cwds(front).contains(last.cwd) {
            assert forall|r: int| 0 <= r < requests.len() implies {
                let place = #[trigger] before[r];
                forall|j: int| 0 <= j < place ==> (#[trigger] sessions[j]).cwd != requests[r].cwd
            } by {
                let place = before[r];
                assert forall|j: int| 0 <= j < place implies (#[trigger] sessions[j]).cwd
                    != requests[r].cwd by {
                    assert(front[j] == sessions[j]);
                }
            }
            before
        } else {
            let places = before.push(front.len() as int);
            assert(requests =~= earlier.push(request_for(workspace_id, last)));
            assert forall|r: int| 0 <= r < requests.len() implies {
                let place = #[trigger] places[r];
                &&& 0 <= place < sessions.len()
                &&& requests[r].workspace_id == workspace_id
                &&& requests[r].cwd == sessions[place].cwd
                &&& requests[r].name == match sessions[place].base_name {
                    Some(name) if name.len() > 0 => name,
                    _ => "unknown"@,
                }
                &&& forall|j: int| 0 <= j < place ==> (#[trigger] sessions[j]).cwd
                    != requests[r].cwd
            } by {
                let place = places[r];
                if r < before.len() {
                    assert(before[r] == place);
                    assert(requests[r] == earlier[r]);
                }
                assert forall|j: int| 0 <= j < place implies (#[trigger] sessions[j]).cwd
                    != requests[r].cwd by {
                    assert(front[j] == sessions[j]);
                    assert(cwds(front)[j] == front[j].cwd);
                }
            }
            assert forall|r: int, q: int| 0 <= r < q < places.len() implies #[trigger] places[r]
                < #[trigger] places[q] by {
                assert(places[r] == before[r]);
                if q < before.len() {
                    assert(places[q] == before[q]);
                } else {
                    assert(0 <= before[r] < front.len());
                }
            }
            places
        }
    }
}

/// The run after a series of answers.
pub open spec fn after_answers(run: RunView, answers: Seq<ProjectId>) -> RunView
    decreases answers.len(),
{
    if answers.len() == 0 {
        run
    } else {
        after_answers(run, answers.drop_last()).answered(answers.last())
    }
}

/// Answers are taken as they come: a run keeps the sessions, workspace and mode
/// that it was started with, and holds the answers it was given, in order.
pub proof fn law_answers_are_taken_as_they_come(
    workspace_id: WorkspaceId,
    sessions: Seq<SessionView>,
    dry_run: bool,
    answers: Seq<ProjectId>,
)
    ensures
        ({
            let run = after_answers(fresh(workspace_id, sessions, dry_run), answers);
            &&& run.workspace_id == workspace_id
            &&& run.sessions == sessions
            &&& run.dry_run == dry_run
            &&& run.answers == answers
        }),
    decreases answers.len(),
{
    if answers.len() > 0 {
        law_answers_are_taken_as_they_come(workspace_id, sessions, dry_run, answers.drop_last());
        assert(answers.drop_last().push(answers.last()) =~= answers);
    } else {
        assert(answers =~= Seq::empty());
    }
}

/// Whether the store has named another project for the session's directory
/// than the one that the session is filed under.
pub open spec fn differs_from_answer(run: RunView, i: int) -> bool {
    exists|r: int|
        0 <= r < run.requests().len() && (#[trigger] run.requests()[r]).cwd == run.sessions[i].cwd
            && run.answers[r] != run.sessions[i].project_id
}

proof fn lemma_answer_is_project(run: RunView, i: int)
    requires
        run.answers.len() == run.requests().len(),
        0 <= i < run.sessions.len(),
    ensures
        differs_from_answer(run, i) <==> is_misfiled(run.sessions[i], run.projects()),
        forall|r: int|
            0 <= r < run.requests().len() && (#[trigger] run.requests()[r]).cwd
                == run.sessions[i].cwd ==> run.answers[r] == run.projects()[run.sessions[i].cwd],
{
    let requests = run.requests();
    law_one_request_per_directory(run.workspace_id, run.sessions);
    law_answers_cover_the_sessions(run.workspace_id, run.sessions, run.answers);
    let r = choose|r: int|
        0 <= r < requests.len() && (#[trigger] requests[r]).cwd == run.sessions[i].cwd;
    assert(requests[r].cwd == run.sessions[i].cwd);
    assert(run.projects()[requests[r].cwd] == run.answers[r]);
}

/// A run with all its answers does what they call for: if the store has named
/// another project for any session's directory than the one it is filed under,
/// the run comes to move sessions, or to show what it would move if it is dry;
/// that there is nothing to do is said only of sessions that are all where
/// they should be; and that there are no sessions, only if there are none.
pub proof fn law_misfiled_sessions_are_moved(run: RunView)
    requires
        run.answers.len() == run.requests().len(),
    ensures
        (exists|i: int| 0 <= i < run.sessions.len() && #[trigger] differs_from_answer(run, i)) ==> {
            &&& !run.dry_run ==> run.next_step() is Move
            &&& run.dry_run ==> run.next_step() is Print && run.next_step() != StepView::Print(
                NOTHING_TO_DO@,
            ) && run.next_step() != StepView::Print(NO_SESSIONS@)
        },
        run.next_step() == StepView::Print(NOTHING_TO_DO@) <==> run.sessions.len() > 0 && (forall|
            i: int,
        |
            0 <= i < run.sessions.len() ==> !#[trigger] differs_from_answer(run, i)),
        run.next_step() == StepView::Print(NO_SESSIONS@) <==> run.sessions.len() == 0,
        run.next_step() !is Resolve,
{
    law_no_plan_means_all_settled(run.sessions, run.projects());
    assert forall|i: int| 0 <= i < run.sessions.len() implies (
    #[trigger] differs_from_answer(run, i) <==> run.sessions[i].project_id
        != run.projects()[run.sessions[i].cwd]) by {
        lemma_answer_is_project(run, i);
    }
    if run.plan().len() > 0 {
        let misfiled = |session: SessionView| is_misfiled(session, run.projects());
        lemma_filter_origin(run.sessions, misfiled, 0);
        let i = choose|i: int|
            0 <= i < run.sessions.len() && run.sessions[i] == run.sessions.filter(misfiled)[0];
        assert(differs_from_answer(run, i));
    }
    lemma_messages_differ(run.plan());
}

/// What a run prints tells which case it was.
proof fn lemma_messages_differ(plan: Seq<PlanEntryView>)
    ensures
        NO_SESSIONS@ != NOTHING_TO_DO@,
        dry_run_text(plan) != NO_SESSIONS@,
        dry_run_text(plan) != NOTHING_TO_DO@,
{
    reveal_strlit("No sessions with a cwd found; nothing to reorg.\n");
    reveal_strlit(
        "All sessions are already in the correct per-cwd project; nothing to do.\n",
    );
    assert(NO_SESSIONS@[0] == 'N');
    assert(NOTHING_TO_DO@[0] == 'A');
    let number = text::decimal_text(plan.len());
    text::law_decimal_reads_back(plan.len());
    assert('0' <= number[0] <= '9');
    assert(dry_run_text(plan)[0] == number[0]);
}

/// A run asks until it has all its answers, and asks for nothing more: a run
/// with sessions is at a request exactly as long as it has fewer answers than
/// requests, and waits then as it is.
pub proof fn law_run_asks_until_all_is_answered(run: RunView)
    ensures
        run.next_step() is Resolve <==> run.sessions.len() > 0 && run.answers.len()
            < run.requests().len(),
        run.next_step() matches StepView::Resolve(waiting) ==> waiting == run,
        run.requests() == requests_for(run.workspace_id, run.sessions),
{
}

proof fn lemma_plan_places(sessions: Seq<SessionView>, projects: Map<Seq<char>, ProjectId>) -> (
    places: Seq<int>)
    ensures
        ({
            let plan = plan_for(sessions, projects);
            &&& places.len() == plan.len()
            &&& forall|k: int, m: int|
                0 <= k < m < places.len() ==> #[trigger] places[k] < #[trigger] places[m]
            &&& forall|k: int|
                0 <= k < places.len() ==> {
                    let place = #[trigger] places[k];
                    &&& 0 <= place < sessions.len()
                    &&& is_misfiled(sessions[place], projects)
                    &&& plan[k] == planned(sessions[place], projects)
                }
            &&& forall|i: int|
                0 <= i < sessions.len() && is_misfiled(#[trigger] sessions[i], projects)
                    ==> places.contains(i)
        }),
    decreases sessions.len(),
{
    reveal(Seq::filter);
    let plan = plan_for(sessions, projects);
    if sessions.len() == 0 {
        Seq::empty()
    } else {
        let front = sessions.drop_last();
        let last = sessions.last();
        let at = front.len() as int;
        let before = lemma_plan_places(front, projects);
        let earlier = plan_for(front, projects);
        let places = if is_misfiled(last, projects) {
            before.push(at)
        } else {
            before
        };
        if is_misfiled(last, projects) {
            assert(plan =~= earlier.push(planned(last, projects)));
        } else {
            assert(plan =~= earlier);
        }
        assert forall|k: int| 0 <= k < places.len() implies {
            let place = #[trigger] places[k];
            &&& 0 <= place < sessions.len()
            &&& is_misfiled(sessions[place], projects)
            &&& plan[k] == planned(sessions[place], projects)
        } by {
            if k < before.len() {
                assert(places[k] == before[k]);
                assert(front[before[k]] == sessions[before[k]]);
            }
        }
        assert forall|k: int, m: int| 0 <= k < m < places.len() implies #[trigger] places[k]
            < #[trigger] places[m] by {
            assert(places[k] == before[k]);
            if m < before.len() {
                assert(places[m] == before[m]);
            }
        }
        assert forall|i: int|
            0 <= i < sessions.len() && is_misfiled(
                #[trigger] sessions[i],
                projects,
            ) implies places.contains(i) by {
            if i < at {
                assert(front[i] == sessions[i]);
                assert(before.contains(i));
                let k = choose|k: int| 0 <= k < before.len() && before[k] == i;
                assert(places[k] == i);
            } else {
                assert(places[before.len() as int] == i);
            }
        }
        places
    }
}

/// What a run moves: exactly the sessions that the store has named another
/// project for, in the order of the sessions, each once and to the project that
/// the store has named for its directory. The entry at each place of the plan
/// is for the session at the place given for it, with that session's key, text
/// and directory, and listed under the file name found for it.
pub proof fn law_run_moves_each_misfiled_session_once(run: RunView) -> (places: Seq<int>)
    requires
        run.answers.len() == run.requests().len(),
    ensures
        ({
            let plan = run.plan();
            let moves = moves_of(plan);
            &&& moves.len() == plan.len()
            &&& places.len() == plan.len()
            &&& forall|k: int, m: int|
                0 <= k < m < places.len() ==> #[trigger] places[k] < #[trigger] places[m]
            &&& forall|i: int|
                0 <= i < run.sessions.len() ==> (#[trigger] differs_from_answer(run, i)
                    <==> places.contains(i))
            &&& forall|k: int|
                0 <= k < plan.len() ==> {
                    let place = #[trigger] places[k];
                    &&& 0 <= place < run.sessions.len()
                    &&& moves[k].0 == run.sessions[place].session_id
                    &&& plan[k].session_id == run.sessions[place].session_id
                    &&& plan[k].session_text == run.sessions[place].session_text
                    &&& plan[k].cwd == run.sessions[place].cwd
                    &&& plan[k].project_name == match run.sessions[place].base_name {
                        Some(name) => name,
                        None => "unknown"@,
                    }
                    &&& plan[k].new_project_id == moves[k].1
                }
            &&& forall|k: int, r: int|
                0 <= k < plan.len() && 0 <= r < run.requests().len() && (
                #[trigger] run.requests()[r]).cwd == run.sessions[#[trigger] places[k]].cwd
                    ==> moves[k].1 == run.answers[r]
        }),
{
    let plan = run.plan();
    let moves = moves_of(plan);
    let places = lemma_plan_places(run.sessions, run.projects());
    assert forall|i: int| 0 <= i < run.sessions.len() implies (
    #[trigger] differs_from_answer(run, i) <==> places.contains(i)) by {
        lemma_answer_is_project(run, i);
        if is_misfiled(run.sessions[i], run.projects()) {
            assert(places.contains(i));
        }
        if places.contains(i) {
            let k = choose|k: int| 0 <= k < places.len() && places[k] == i;
            assert(is_misfiled(run.sessions[places[k]], run.projects()));
        }
    }
    assert forall|k: int| 0 <= k < plan.len() implies {
        let place = #[trigger] places[k];
        &&& moves[k].0 == run.sessions[place].session_id
        &&& plan[k].new_project_id == moves[k].1
    } by {
        assert(moves[k] == (plan[k].session_id, plan[k].new_project_id));
    }
    assert forall|k: int, r: int|
        0 <= k < plan.len() && 0 <= r < run.requests().len() && (
        #[trigger] run.requests()[r]).cwd == run.sessions[
        #[trigger] places[k]].cwd implies moves[k].1 == run.answers[r] by {
        lemma_answer_is_project(run, places[k]);
        assert(moves[k] == (plan[k].session_id, plan[k].new_project_id));
    }
    places
}

/// A session goes where the store says: once all is answered, a session that is
/// filed under another project than the answer to the request for its directory
/// is moved to that answer, and the run does not end before, unless it is dry;
/// and a run that says there is nothing to do leaves the session where the
/// answer has it.
pub proof fn law_session_goes_where_the_store_says(run: RunView, i: int, r: int)
    requires
        run.answers.len() == run.requests().len(),
        0 <= i < run.sessions.len(),
        0 <= r < run.requests().len(),
        run.requests()[r].cwd == run.sessions[i].cwd,
    ensures
        run.sessions[i].project_id != run.answers[r] ==> {
            &&& moves_of(run.plan()).contains((run.sessions[i].session_id, run.answers[r]))
            &&& !run.dry_run ==> run.next_step() == StepView::Move(run.plan())
            &&& run.dry_run ==> run.next_step() == StepView::Print(dry_run_text(run.plan()))
        },
        run.next_step() == StepView::Print(NOTHING_TO_DO@) ==> run.sessions[i].project_id
            == run.answers[r],
{
    lemma_answer_is_project(run, i);
    lemma_messages_differ(run.plan());
    let places = law_run_moves_each_misfiled_session_once(run);
    if run.sessions[i].project_id != run.answers[r] {
        assert(differs_from_answer(run, i));
        let k = choose|k: int| 0 <= k < places.len() && places[k] == i;
        assert(run.requests()[r].cwd == run.sessions[places[k]].cwd);
        assert(moves_of(run.plan())[k] == (run.sessions[i].session_id, run.answers[r]));
    }
}

/// No session is moved that need not be: every move is of a session of the run,
/// to the answer to the request for its directory, and away from another
/// project.
pub proof fn law_every_move_is_called_for(run: RunView, k: int) -> (found: (int, int))
    requires
        run.answers.len() == run.requests().len(),
        0 <= k < moves_of(run.plan()).len(),
    ensures
        ({
            let (i, r) = found;
            &&& 0 <= i < run.sessions.len()
            &&& 0 <= r < run.requests().len()
            &&& run.requests()[r].cwd == run.sessions[i].cwd
            &&& run.sessions[i].project_id != run.answers[r]
            &&& moves_of(run.plan())[k] == (run.sessions[i].session_id, run.answers[r])
        }),
{
    let places = law_run_moves_each_misfiled_session_once(run);
    let i = places[k];
    assert(places.contains(i));
    assert(differs_from_answer(run, i));
    let r = choose|r: int|
        0 <= r < run.requests().len() && (#[trigger] run.requests()[r]).cwd == run.sessions[i].cwd
            && run.answers[r] != run.sessions[i].project_id;
    assert(run.requests()[r].cwd == run.sessions[places[k]].cwd);
    (i, r)
}

/// The default workspace is reorganised, by all its sessions that have a
/// working directory, oldest first.
pub proof fn law_sessions_with_a_directory_are_read()
    ensures
        WORKSPACE@ == "default"@,
        SESSIONS_WITH_CWD@ == "SELECT id, project_id, cwd FROM sessions WHERE cwd IS NOT NULL AND cwd != '' ORDER BY started_at"@,
{
}

/// A run that comes to move carries out its plan, whole.
pub proof fn law_move_is_the_whole_plan(run: RunView)
    ensures
        run.next_step() matches StepView::Move(plan) ==> plan == run.plan(),
{
}

/// Whether `row` is the table line of the planned move: its session's text in
/// the first column, the name of its project in the second, then its directory.
pub open spec fn is_row_of(row: Seq<char>, entry: PlanEntryView) -> bool {
    exists|first: Seq<char>, second: Seq<char>|
        {
            &&& #[trigger] text::is_column(first, entry.session_text, 38)
            &&& #[trigger] text::is_column(second, entry.project_name, 20)
            &&& row == first + " "@ + second + " "@ + entry.cwd + "\n"@
        }
}

/// Whether `rule` is a line of dashes across the table.
pub open spec fn is_rule(rule: Seq<char>) -> bool {
    rule.len() == 80 && forall|i: int| 0 <= i < rule.len() ==> #[trigger] rule[i] == '-'
}

proof fn lemma_plan_rows(plan: Seq<PlanEntryView>) -> (rows: Seq<Seq<char>>)
    ensures
        rows.len() == plan.len(),
        forall|k: int| 0 <= k < plan.len() ==> is_row_of(#[trigger] rows[k], plan[k]),
        plan_lines(plan) == rows.flatten(),
    decreases plan.len(),
{
    if plan.len() == 0 {
        Seq::empty()
    } else {
        let front = plan.drop_last();
        let before = lemma_plan_rows(front);
        let entry = plan.last();
        let row = plan_line(entry);
        text::law_padded_text_is_a_column(entry.session_text, 38);
        text::law_padded_text_is_a_column(entry.project_name, 20);
        assert(is_row_of(row, entry));
        before.lemma_flatten_push(row);
        let rows = before.push(row);
        assert forall|k: int| 0 <= k < plan.len() implies is_row_of(
            #[trigger] rows[k],
            plan[k],
        ) by {
            if k < front.len() {
                assert(rows[k] == before[k]);
                assert(plan[k] == front[k]);
            }
        }
        rows
    }
}

/// What a dry run prints is the plan as a table: the number of moves, the
/// headings over a line of dashes, and then one row for each move, in the order
/// of the plan, and no other.
pub proof fn law_dry_run_prints_one_row_per_move(plan: Seq<PlanEntryView>) -> (rows: Seq<Seq<char>>)
    ensures
        rows.len() == plan.len(),
        forall|k: int| 0 <= k < plan.len() ==> is_row_of(#[trigger] rows[k], plan[k]),
        exists|number: Seq<char>, first: Seq<char>, second: Seq<char>, rule: Seq<char>|
            {
                &&& #[trigger] text::is_decimal_of(number, plan.len())
                &&& #[trigger] text::is_column(first, "session_id"@, 38)
                &&& #[trigger] text::is_column(second, "new_project"@, 20)
                &&& #[trigger] is_rule(rule)
                &&& dry_run_text(plan) == number + " session(s) would be moved:\n\n"@ + first
                    + " "@ + second + " cwd\n"@ + rule + "\n"@ + rows.flatten()
                    + "\n(dry-run; omit --dry-run to apply)\n"@
            },
{
    let rows = lemma_plan_rows(plan);
    let number = text::decimal_text(plan.len());
    let first = text::padded("session_id"@, 38);
    let second = text::padded("new_project"@, 20);
    let rule = text::repeated("-"@, 80);
    text::law_decimal_reads_back(plan.len());
    text::law_padded_text_is_a_column("session_id"@, 38);
    text::law_padded_text_is_a_column("new_project"@, 20);
    reveal_strlit("-");
    text::law_copies_repeat_the_piece("-"@, 80, 0, 0);
    assert forall|i: int| 0 <= i < rule.len() implies #[trigger] rule[i] == '-' by {
        text::law_copies_repeat_the_piece("-"@, 80, i, 0);
    }
    assert(is_rule(rule));
    assert(dry_run_text(plan) == number + " session(s) would be moved:\n\n"@ + first + " "@ + second
        + " cwd\n"@ + rule + "\n"@ + rows.flatten() + "\n(dry-run; omit --dry-run to apply)\n"@);
    rows
}

/// The closing report gives each number under its own label: the sessions that
/// were moved, the observations that were updated, the pages that were
/// graveyarded and the projects that sessions went to, each in decimal notation
/// and on a line of its own.
pub proof fn law_summary_gives_each_number_under_its_label(
    summary: ReorgSummary,
    distinct_projects: nat,
)
    ensures
        exists|moved: Seq<char>, updated: Seq<char>, buried: Seq<char>, projects: Seq<char>|
            {
                &&& #[trigger] text::is_decimal_of(moved, summary.sessions_moved as nat)
                &&& #[trigger] text::is_decimal_of(updated, summary.observations_updated as nat)
                &&& #[trigger] text::is_decimal_of(buried, summary.pages_graveyarded as nat)
                &&& #[trigger] text::is_decimal_of(projects, distinct_projects)
                &&& summary_text(summary, distinct_projects) == "Reorg complete:\n"@
                    + "  sessions moved:        "@ + moved + "\n  observations updated:  "@
                    + updated + "\n  pages graveyarded:     "@ + buried
                    + "\n  distinct new projects: "@ + projects + "\n"@
            },
{
    text::law_decimal_reads_back(summary.sessions_moved as nat);
    text::law_decimal_reads_back(summary.observations_updated as nat);
    text::law_decimal_reads_back(summary.pages_graveyarded as nat);
    text::law_decimal_reads_back(distinct_projects);
    let moved = text::decimal_text(summary.sessions_moved as nat);
    let updated = text::decimal_text(summary.observations_updated as nat);
    let buried = text::decimal_text(summary.pages_graveyarded as nat);
    let projects = text::decimal_text(distinct_projects);
    assert(summary_text(summary, distinct_projects) == "Reorg complete:\n"@
        + "  sessions moved:        "@ + moved + "\n  observations updated:  "@ + updated
        + "\n  pages graveyarded:     "@ + buried + "\n  distinct new projects: "@ + projects
        + "\n"@);
}

/// How many sessions were moved is told apart from how many observations were
/// updated: two reports begin alike up to the end of the line of sessions moved
/// whenever as many were moved, whatever else differs.
pub proof fn law_sessions_line_rests_on_the_sessions_alone(
    summary: ReorgSummary,
    other: ReorgSummary,
    distinct_projects: nat,
    other_projects: nat,
)
    requires
        summary.sessions_moved == other.sessions_moved,
    ensures
        exists|line: Seq<char>|
            {
                &&& text::is_decimal_of(
                    #[trigger] line.skip(
                        ("Reorg complete:\n"@ + "  sessions moved:        "@).len() as int,
                    ),
                    summary.sessions_moved as nat,
                )
                &&& line.is_prefix_of(summary_text(summary, distinct_projects))
                &&& line.is_prefix_of(summary_text(other, other_projects))
            },
{
    let head = "Reorg complete:\n"@ + "  sessions moved:        "@;
    let number = text::decimal_text(summary.sessions_moved as nat);
    let line = head + number;
    text::law_decimal_reads_back(summary.sessions_moved as nat);
    assert(line.skip(head.len() as int) =~= number);
    assert(line =~= summary_text(summary, distinct_projects).take(line.len() as int));
    assert(line =~= summary_text(other, other_projects).take(line.len() as int));
}

/// The projects that are counted are exactly those that sessions are moved to.
pub proof fn law_target_projects_are_those_moved_to(plan: Seq<PlanEntryView>, project: ProjectId)
    ensures
        target_projects(plan).contains(project) <==> exists|k: int|
            0 <= k < plan.len() && (#[trigger] plan[k]).new_project_id == project,
{
    let targets = plan.map_values(|entry: PlanEntryView| entry.new_project_id);
    if target_projects(plan).contains(project) {
        let k = choose|k: int| 0 <= k < targets.len() && targets[k] == project;
        assert(plan[k].new_project_id == project);
    }
    if exists|k: int| 0 <= k < plan.len() && (#[trigger] plan[k]).new_project_id == project {
        let k = choose|k: int| 0 <= k < plan.len() && (#[trigger] plan[k]).new_project_id == project;
        assert(targets[k] == project);
    }
}

} // verus!
