use ai_memory::ids::{ProjectId, SessionId, WorkspaceId};
use ai_memory::reorg::{
    decode_sessions, project_requests, run, run_named, NamedSession, ReorgStep, ReorgSummary,
    SessionRecord, SessionRow, SESSIONS_WITH_CWD, WORKSPACE,
};
use std::collections::HashMap;

const WS: WorkspaceId = WorkspaceId { key: 7 };
const SCRATCH: u128 = 1;

fn session(key: u128, project: u128, cwd: &str) -> SessionRow {
    SessionRow {
        session_id: SessionId { key },
        session_text: format!("session-{key}"),
        project_id: ProjectId { key: project },
        cwd: cwd.to_string(),
    }
}

fn two_sessions() -> Vec<SessionRow> {
    vec![
        session(10, SCRATCH, "/home/user/project-alpha"),
        session(11, SCRATCH, "/home/user/project-beta"),
    ]
}

/// A store that creates a project the first time its directory is asked for.
struct FakeStore {
    projects: HashMap<String, ProjectId>,
    asked: Vec<(String, String)>,
}

impl FakeStore {
    fn new() -> FakeStore {
        FakeStore { projects: HashMap::new(), asked: Vec::new() }
    }

    fn get_or_create(&mut self, name: &str, cwd: &str) -> ProjectId {
        self.asked.push((name.to_string(), cwd.to_string()));
        let next = ProjectId { key: 100 + self.projects.len() as u128 };
        *self.projects.entry(cwd.to_string()).or_insert(next)
    }
}

/// Answers every request of a run, and returns the step it comes to.
fn resolve_all(store: &mut FakeStore, sessions: Vec<SessionRow>, dry_run: bool) -> ReorgStep {
    let mut step = run(WS, sessions, dry_run);
    loop {
        match step {
            ReorgStep::Resolve(pending) => {
                let request = pending.request();
                assert_eq!(request.workspace_id, WS);
                let project = store.get_or_create(&request.name, &request.cwd);
                step = pending.resolved(project);
            }
            other => return other,
        }
    }
}

fn printed(step: ReorgStep) -> String {
    match step {
        ReorgStep::Print(text) => text,
        _ => panic!("expected text"),
    }
}

#[test]
fn sessions_move_to_per_cwd_projects() {
    let mut store = FakeStore::new();
    let pending = match resolve_all(&mut store, two_sessions(), false) {
        ReorgStep::Move(pending) => pending,
        _ => panic!("both sessions need moving"),
    };
    let alpha = store.projects["/home/user/project-alpha"];
    let beta = store.projects["/home/user/project-beta"];
    assert_ne!(alpha, beta);
    let moves = pending.moves();
    assert_eq!(moves.len(), 2, "both sessions need moving");
    assert_eq!(moves, vec![(SessionId { key: 10 }, alpha), (SessionId { key: 11 }, beta)]);
    assert_eq!(pending.distinct_projects(), 2);
    assert_eq!(
        store.asked,
        vec![
            ("project-alpha".to_string(), "/home/user/project-alpha".to_string()),
            ("project-beta".to_string(), "/home/user/project-beta".to_string()),
        ]
    );
    let summary = ReorgSummary { sessions_moved: 2, observations_updated: 2, pages_graveyarded: 1 };
    assert_eq!(
        pending.moved(&summary),
        "Reorg complete:\n  sessions moved:        2\n  observations updated:  2\n  \
         pages graveyarded:     1\n  distinct new projects: 2\n"
    );
}

#[test]
fn running_again_finds_nothing_to_do() {
    let mut store = FakeStore::new();
    let moves = match resolve_all(&mut store, two_sessions(), false) {
        ReorgStep::Move(pending) => pending.moves(),
        _ => panic!("expected moves"),
    };
    let mut sessions = two_sessions();
    for row in &mut sessions {
        for (id, project) in &moves {
            if *id == row.session_id {
                row.project_id = *project;
            }
        }
    }
    let before = store.asked.clone();
    let text = printed(resolve_all(&mut store, sessions, false));
    assert_eq!(text, "All sessions are already in the correct per-cwd project; nothing to do.\n");
    assert_eq!(store.asked[before.len()..], before[..]);
}

#[test]
fn sessions_in_the_right_project_are_skipped() {
    let mut store = FakeStore::new();
    let sessions = vec![
        session(1, 100, "/w/a"),
        session(2, SCRATCH, "/w/a"),
        session(3, SCRATCH, "/w/a"),
    ];
    match resolve_all(&mut store, sessions, false) {
        ReorgStep::Move(pending) => {
            let a = ProjectId { key: 100 };
            assert_eq!(pending.moves(), vec![(SessionId { key: 2 }, a), (SessionId { key: 3 }, a)]);
            assert_eq!(pending.distinct_projects(), 1);
        }
        _ => panic!("expected moves"),
    }
}

fn named(row: SessionRow, base_name: Option<&str>) -> NamedSession {
    NamedSession { row, base_name: base_name.map(str::to_string) }
}

#[test]
fn each_directory_is_asked_for_once() {
    let sessions = vec![
        named(session(1, SCRATCH, "/w/b"), Some("b")),
        named(session(2, SCRATCH, "/w/a"), Some("a")),
        named(session(3, SCRATCH, "/w/b"), Some("b")),
        named(session(4, SCRATCH, "/"), None),
        named(session(5, SCRATCH, "/w/a"), Some("a")),
    ];
    let requests = project_requests(WS, &sessions);
    let asked: Vec<(&str, &str)> =
        requests.iter().map(|r| (r.name.as_str(), r.cwd.as_str())).collect();
    assert_eq!(asked, vec![("b", "/w/b"), ("a", "/w/a"), ("unknown", "/")]);
    assert!(requests.iter().all(|r| r.workspace_id == WS));
    assert!(project_requests(WS, &Vec::new()).is_empty());
}

#[test]
fn a_directory_goes_by_the_name_that_the_platform_finds() {
    let sessions = vec![named(session(1, SCRATCH, "C:\\work\\proj"), Some("proj"))];
    match run_named(WS, sessions, false) {
        ReorgStep::Resolve(pending) => {
            assert_eq!(pending.request().name, "proj");
            assert_eq!(pending.request().cwd, "C:\\work\\proj");
        }
        _ => panic!("expected a request"),
    }
}

#[test]
fn no_sessions_means_nothing_to_reorg() {
    assert_eq!(
        printed(run(WS, Vec::new(), false)),
        "No sessions with a cwd found; nothing to reorg.\n"
    );
    assert_eq!(
        printed(run(WS, Vec::new(), true)),
        "No sessions with a cwd found; nothing to reorg.\n"
    );
}

#[test]
fn dry_run_prints_the_plan() {
    let mut store = FakeStore::new();
    let text = printed(resolve_all(&mut store, two_sessions(), true));
    let mut expected = String::from("2 session(s) would be moved:\n\n");
    expected.push_str(&format!("{:<38} {:<20} cwd\n", "session_id", "new_project"));
    expected.push_str(&format!("{}\n", "-".repeat(80)));
    for (id, name, cwd) in [
        ("session-10", "project-alpha", "/home/user/project-alpha"),
        ("session-11", "project-beta", "/home/user/project-beta"),
    ] {
        expected.push_str(&format!("{:<38} {:<20} {}\n", id, name, cwd));
    }
    expected.push_str("\n(dry-run; omit --dry-run to apply)\n");
    assert_eq!(text, expected);
    assert_eq!(store.asked.len(), 2);
}

#[test]
fn dry_run_without_moves_has_nothing_to_do() {
    let mut store = FakeStore::new();
    let text = printed(resolve_all(&mut store, vec![session(1, 100, "/w/a")], true));
    assert_eq!(text, "All sessions are already in the correct per-cwd project; nothing to do.\n");
}

fn record(
    key: Result<u128, &'static str>,
    project: Result<u128, &'static str>,
) -> Result<SessionRecord<&'static str>, &'static str> {
    Ok(SessionRecord {
        session: key.map(|key| (SessionId { key }, key.to_string())),
        project_id: project.map(|key| ProjectId { key }),
        cwd: "/w".to_string(),
    })
}

fn decode_error(records: Vec<Result<SessionRecord<&'static str>, &'static str>>) -> &'static str {
    match decode_sessions(records) {
        Ok(_) => panic!("expected an error"),
        Err(error) => error,
    }
}

#[test]
fn sound_records_are_decoded_in_order() {
    let rows = match decode_sessions(vec![record(Ok(5), Ok(1)), record(Ok(4), Ok(2))]) {
        Ok(rows) => rows,
        Err(error) => panic!("{error}"),
    };
    assert_eq!(rows.len(), 2);
    assert_eq!(rows[0].session_id, SessionId { key: 5 });
    assert_eq!(rows[0].session_text, "5");
    assert_eq!(rows[1].project_id, ProjectId { key: 2 });
    assert_eq!(rows[1].cwd, "/w");
}

#[test]
fn the_first_unsound_record_decides() {
    assert_eq!(decode_error(vec![record(Ok(1), Ok(1)), Err("row"), record(Err("id"), Ok(1))]), "row");
    assert_eq!(decode_error(vec![record(Err("id"), Err("project")), Err("row")]), "id");
    assert_eq!(decode_error(vec![record(Ok(1), Err("project")), Err("row")]), "project");
}

#[test]
fn the_default_workspace_is_read() {
    assert_eq!(WORKSPACE, "default");
    assert!(SESSIONS_WITH_CWD.contains("cwd IS NOT NULL AND cwd != ''"));
    assert!(SESSIONS_WITH_CWD.ends_with("ORDER BY started_at"));
}
