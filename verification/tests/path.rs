use ai_memory::ids::{ProjectId, SessionId, WorkspaceId};
use ai_memory::path::{listed_name, project_name};
use ai_memory::reorg::{run, ReorgStep, SessionRow};

/// The name of the project that a run asks for on behalf of `cwd`, and the
/// table line that lists it.
fn asked_and_listed(cwd: &str) -> (String, String) {
    let row = SessionRow {
        session_id: SessionId { key: 1 },
        session_text: "s".to_string(),
        project_id: ProjectId { key: 1 },
        cwd: cwd.to_string(),
    };
    let pending = match run(WorkspaceId { key: 7 }, vec![row], true) {
        ReorgStep::Resolve(pending) => pending,
        _ => panic!("expected a request"),
    };
    let name = pending.request().name.clone();
    assert_eq!(pending.request().cwd, cwd);
    match pending.resolved(ProjectId { key: 2 }) {
        ReorgStep::Print(text) => (name, text.lines().nth(4).unwrap().to_string()),
        _ => panic!("expected the plan"),
    }
}

#[test]
fn file_names_agree_with_std() {
    let paths = [
        "", "/", "//", ".", "..", "./", "../", "/.", "/..", "./.", "a", "a/", "a//", "a/.", "a/./",
        "a/..", "a/../", "a/../b", "/a", "/a/b", "/a/b/", "/a//b///", "/a/./b/.", "./a", "../a",
        "a/.b", "a/..b", "a/b..", "...", "a/...", "/home/user/project-alpha", "/home/user/ä ö",
        "a b/c d", "a\\b", "C:\\x", "C:x", "//server/share", "\\\\server\\share\\x", " ", "/ ", "-",
        "/tmp/x.y.z/", "a/./..", "a/././.", "C:\\work\\proj",
    ];
    for path in paths {
        let expected = std::path::Path::new(path)
            .file_name()
            .and_then(|name| name.to_str())
            .unwrap_or("unknown");
        let (asked, listed) = asked_and_listed(path);
        assert_eq!(asked, expected, "path {path:?}");
        assert_eq!(listed, format!("{:<38} {expected:<20} {path}", "s"), "path {path:?}");
    }
}

#[test]
fn project_name_is_the_base_name() {
    assert_eq!(asked_and_listed("/home/user/project-alpha").0, "project-alpha");
    assert_eq!(asked_and_listed("/home/user/project-beta/").0, "project-beta");
    assert_eq!(asked_and_listed("relative").0, "relative");
}

#[test]
fn directories_without_a_name_are_unknown() {
    assert_eq!(asked_and_listed("/").0, "unknown");
    assert_eq!(asked_and_listed("").0, "unknown");
    assert_eq!(asked_and_listed("/home/..").0, "unknown");
    assert_eq!(asked_and_listed(".").0, "unknown");
}

#[test]
fn a_project_is_never_nameless() {
    assert_eq!(project_name(&Some("proj".to_string())), "proj");
    assert_eq!(project_name(&Some(String::new())), "unknown");
    assert_eq!(project_name(&None), "unknown");
    assert_eq!(listed_name(&Some("proj".to_string())), "proj");
    assert_eq!(listed_name(&Some(String::new())), "");
    assert_eq!(listed_name(&None), "unknown");
}
