use ai_memory::embed::{
    require_embedder, run, BackfillStep, Candidate, EmbedReport, Embedder,
};
use ai_memory::ids::PageId;

fn embedder() -> Embedder {
    Embedder { provider: "openai".to_string(), model: "small \"v1\"".to_string(), dim: 384 }
}

fn candidates(keys: &[u128]) -> Vec<Candidate> {
    keys.iter()
        .map(|key| Candidate { id: PageId { key: *key }, path: format!("page-{key}.md") })
        .collect()
}

/// What the outside does to the page with a given key.
#[derive(Clone, Copy, PartialEq)]
enum Fate {
    Works,
    Unreadable,
    NotEmbedded,
    NotStored,
}

struct Trace {
    report: EmbedReport,
    read: Vec<String>,
    bodies: Vec<String>,
    stored: Vec<u128>,
    loads: usize,
}

fn drive(
    keys: &[u128],
    force: bool,
    dry_run: bool,
    known: &[u128],
    fate: fn(u128) -> Fate,
) -> Trace {
    let key_of = |path: &str| -> u128 {
        path.trim_start_matches("page-").trim_end_matches(".md").parse().unwrap()
    };
    let (mut read, mut bodies, mut stored, mut loads) = (vec![], vec![], vec![], 0);
    let mut step = run(embedder(), candidates(keys), force, dry_run);
    loop {
        step = match step {
            BackfillStep::LoadEmbeddings(pending) => {
                loads += 1;
                assert_eq!(pending.embedder().provider, "openai");
                let ids: Vec<PageId> = known.iter().map(|key| PageId { key: *key }).collect();
                pending.loaded(&ids)
            }
            BackfillStep::ReadPage(pending) => {
                let path = pending.path().clone();
                read.push(path.clone());
                let readable = fate(key_of(&path)) != Fate::Unreadable;
                pending.page_read(if readable { Some(format!("body of {path}")) } else { None })
            }
            BackfillStep::Embed(pending) => {
                bodies.push(pending.body().clone());
                let works = fate(key_of(pending.path())) != Fate::NotEmbedded;
                pending.embedded(if works { Some(vec![1, 2, 3]) } else { None })
            }
            BackfillStep::Store(pending) => {
                assert_eq!(pending.vector(), &vec![1, 2, 3]);
                assert_eq!(pending.embedder().dim, 384);
                assert_eq!(key_of(pending.path()), pending.id().key);
                let works = fate(pending.id().key) == Fate::Works;
                if works {
                    stored.push(pending.id().key);
                }
                pending.stored(works)
            }
            BackfillStep::Finished(report) => {
                return Trace { report, read, bodies, stored, loads };
            }
        };
    }
}

fn counts(report: &EmbedReport) -> (usize, usize, usize) {
    (report.embedded, report.skipped, report.failed)
}

#[test]
fn every_page_is_embedded_and_stored() {
    let trace = drive(&[1, 2], false, false, &[], |_| Fate::Works);
    assert_eq!(counts(&trace.report), (2, 0, 0));
    assert_eq!(trace.read, ["page-1.md", "page-2.md"]);
    assert_eq!(trace.bodies, ["body of page-1.md", "body of page-2.md"]);
    assert_eq!(trace.stored, [1, 2]);
    assert_eq!(trace.loads, 1);
}

#[test]
fn pages_with_an_embedding_are_skipped() {
    let trace = drive(&[1, 2, 3, 4], false, false, &[4, 2, 1, 9], |_| Fate::Works);
    assert_eq!(counts(&trace.report), (1, 3, 0));
    assert_eq!(trace.read, ["page-3.md"]);
    assert_eq!(trace.stored, [3]);
}

#[test]
fn force_skips_nothing_and_loads_nothing() {
    let trace = drive(&[1, 2], true, false, &[1, 2], |_| Fate::Works);
    assert_eq!(counts(&trace.report), (2, 0, 0));
    assert_eq!(trace.loads, 0);
    assert_eq!(trace.stored, [1, 2]);
}

#[test]
fn dry_run_reads_but_neither_embeds_nor_stores() {
    let trace = drive(&[1, 2, 3], false, true, &[2], |key| {
        if key == 3 { Fate::Unreadable } else { Fate::Works }
    });
    assert_eq!(counts(&trace.report), (1, 1, 1));
    assert!(trace.report.dry_run);
    assert_eq!(trace.read, ["page-1.md", "page-3.md"]);
    assert!(trace.bodies.is_empty());
    assert!(trace.stored.is_empty());
}

#[test]
fn every_kind_of_failure_is_counted_and_passed_over() {
    let trace = drive(&[1, 2, 3, 4], false, false, &[], |key| match key {
        1 => Fate::Unreadable,
        2 => Fate::NotEmbedded,
        3 => Fate::NotStored,
        _ => Fate::Works,
    });
    assert_eq!(counts(&trace.report), (1, 0, 3));
    assert_eq!(trace.read.len(), 4);
    assert_eq!(trace.bodies.len(), 3);
    assert_eq!(trace.stored, [4]);
    assert_eq!(trace.report.calls_failed, 2);
    assert_eq!(trace.report.verdict(), Err("2 embed or store call(s) failed".to_string()));
}

#[test]
fn unreadable_pages_alone_are_no_error() {
    let trace = drive(&[1, 2], true, false, &[], |key| {
        if key == 1 { Fate::Unreadable } else { Fate::Works }
    });
    assert_eq!(counts(&trace.report), (1, 0, 1));
    assert_eq!(trace.report.verdict(), Ok(()));
}

#[test]
fn a_second_backfill_skips_everything() {
    let first = drive(&[1, 2, 3], false, false, &[2], |_| Fate::Works);
    let mut known = vec![2];
    known.extend(first.stored);
    let second = drive(&[1, 2, 3], false, false, &known, |_| Fate::Works);
    assert_eq!(counts(&second.report), (0, 3, 0));
    assert!(second.read.is_empty());
}

#[test]
fn a_second_backfill_tries_only_failed_pages() {
    let first = drive(&[1, 2, 3, 4], false, false, &[2], |key| match key {
        1 => Fate::NotStored,
        3 => Fate::Unreadable,
        _ => Fate::Works,
    });
    let mut known = vec![2];
    known.extend(first.stored);
    let second = drive(&[1, 2, 3, 4], false, false, &known, |_| Fate::Works);
    assert_eq!(counts(&second.report), (2, 2, 0));
    assert_eq!(second.read, ["page-1.md", "page-3.md"]);
}

#[test]
fn without_candidates_the_report_is_empty() {
    let trace = drive(&[], true, false, &[], |_| Fate::Works);
    assert_eq!(counts(&trace.report), (0, 0, 0));
    let trace = drive(&[], false, true, &[], |_| Fate::Works);
    assert_eq!(counts(&trace.report), (0, 0, 0));
}

#[test]
fn the_report_prints_as_json() {
    let report = EmbedReport {
        dry_run: true,
        embedder: embedder(),
        embedded: 3,
        skipped: 20,
        failed: 1,
        calls_failed: 0,
    };
    assert_eq!(
        report.to_json().unwrap(),
        "{\n  \"dim\": 384,\n  \"dry_run\": true,\n  \"embedded\": 3,\n  \"failed\": 1,\n  \
         \"model\": \"small \\\"v1\\\"\",\n  \"provider\": \"openai\",\n  \"skipped\": 20\n}"
    );
}

#[test]
fn a_run_needs_an_embedder() {
    assert_eq!(require_embedder(Some(5)), Ok(5));
    let message = require_embedder(None::<u8>).unwrap_err();
    assert_eq!(
        message,
        "AI_MEMORY_EMBEDDING_PROVIDER is unset. Configure an embedder \
         (see docs/design-decisions.md §4) and re-run."
    );
}
