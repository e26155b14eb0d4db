//! `ai-memory embed`: compute and store embeddings for every latest page.
//!
//! Used to backfill embeddings after attaching an embedder for the first
//! time, or after switching provider, model or dimension. The backfill is a
//! state machine: each [`BackfillStep`] names the one thing to do next, and
//! handing back what came of it gives the next step.

use crate::ids::PageId;
use crate::json;
use crate::text;
use std::collections::HashSet;
use vstd::prelude::*;
use vstd::string::*;

verus! {

broadcast use vstd::std_specs::hash::group_hash_axioms;

/// What a run is told that has no embedder to work with.
pub const NO_EMBEDDER: &'static str = "AI_MEMORY_EMBEDDING_PROVIDER is unset. Configure an embedder (see docs/design-decisions.md §4) and re-run.";

/// The embedder's configuration, or the message with which the run ends where
/// there is none.
pub fn require_embedder<C>(configured: Option<C>) -> (config: Result<C, String>)
    ensures
        match configured {
            Some(found) => config == Ok::<_, String>(found),
            None => config is Err && config->Err_0@ == NO_EMBEDDER@,
        },
{
    match configured {
        Some(found) => Ok(found),
        None => Err(NO_EMBEDDER.to_owned()),
    }
}

/// What identifies the embeddings of one embedder.
pub struct Embedder {
    pub provider: String,
    pub model: String,
    pub dim: usize,
}

/// What an [`Embedder`] says.
pub struct EmbedderView {
    pub provider: Seq<char>,
    pub model: Seq<char>,
    pub dim: nat,
}

impl View for Embedder {
    type V = EmbedderView;

    open spec fn view(&self) -> EmbedderView {
        EmbedderView { provider: self.provider@, model: self.model@, dim: self.dim as nat }
    }
}

/// A page that may need an embedding.
pub struct Candidate {
    pub id: PageId,
    pub path: String,
}

/// What a [`Candidate`] says.
pub struct CandidateView {
    pub id: PageId,
    pub path: Seq<char>,
}

impl View for Candidate {
    type V = CandidateView;

    open spec fn view(&self) -> CandidateView {
        CandidateView { id: self.id, path: self.path@ }
    }
}

/// What the candidates say, page by page.
pub open spec fn candidate_views(candidates: Seq<Candidate>) -> Seq<CandidateView> {
    candidates.map_values(|candidate: Candidate| candidate@)
}

/// The closing report of a backfill.
pub struct EmbedReport {
    pub dry_run: bool,
    pub embedder: Embedder,
    pub embedded: usize,
    pub skipped: usize,
    pub failed: usize,
    /// How many of the failed pages failed in a call of the embedder or the
    /// store.
    pub calls_failed: usize,
}

/// What an [`EmbedReport`] says.
pub struct ReportView {
    pub dry_run: bool,
    pub embedder: EmbedderView,
    pub embedded: nat,
    pub skipped: nat,
    pub failed: nat,
    pub calls_failed: nat,
}

impl View for EmbedReport {
    type V = ReportView;

    open spec fn view(&self) -> ReportView {
        ReportView {
            dry_run: self.dry_run,
            embedder: self.embedder@,
            embedded: self.embedded as nat,
            skipped: self.skipped as nat,
            failed: self.failed as nat,
            calls_failed: self.calls_failed as nat,
        }
    }
}

/// The message of a run in which `count` embed or store calls failed.
pub open spec fn calls_failed_text(count: nat) -> Seq<char> {
    text::decimal_text(count) + " embed or store call(s) failed"@
}

/// The JSON fields of a report.
pub open spec fn report_fields(report: ReportView) -> json::Fields {
    map![
        "dry_run"@ => json::FieldView::Flag(report.dry_run),
        "provider"@ => json::FieldView::Text(report.embedder.provider),
        "model"@ => json::FieldView::Text(report.embedder.model),
        "dim"@ => json::FieldView::Count(report.embedder.dim),
        "embedded"@ => json::FieldView::Count(report.embedded),
        "skipped"@ => json::FieldView::Count(report.skipped),
        "failed"@ => json::FieldView::Count(report.failed),
    ]
}

impl EmbedReport {
    /// The report as pretty-printed JSON.
    pub fn to_json(&self) -> (printed: serde_json::Result<String>)
        ensures
            printed is Ok,
            printed->Ok_0@ == json::pretty_text(report_fields(self@)),
            report_fields(self@)["dry_run"@] == json::FieldView::Flag(self.dry_run),
            report_fields(self@)["provider"@] == json::FieldView::Text(self.embedder.provider@),
            report_fields(self@)["model"@] == json::FieldView::Text(self.embedder.model@),
            report_fields(self@)["dim"@] == json::FieldView::Count(self.embedder.dim as nat),
            report_fields(self@)["embedded"@] == json::FieldView::Count(self.embedded as nat),
            report_fields(self@)["skipped"@] == json::FieldView::Count(self.skipped as nat),
            report_fields(self@)["failed"@] == json::FieldView::Count(self.failed as nat),
    {
        let mut object: json::JsonObject = json::new_object();
        json::set_flag(&mut object, "dry_run", self.dry_run);
        json::set_text(&mut object, "provider", self.embedder.provider.as_str());
        json::set_text(&mut object, "model", self.embedder.model.as_str());
        json::set_count(&mut object, "dim", self.embedder.dim);
        json::set_count(&mut object, "embedded", self.embedded);
        json::set_count(&mut object, "skipped", self.skipped);
        json::set_count(&mut object, "failed", self.failed);
        assert(json::object_fields(object) =~= report_fields(self@));
        proof {
            law_report_prints_its_own_numbers(self@);
        }
        json::to_string_pretty(object)
    }

    /// How the run ends: with an error if any embed or store call failed.
    pub fn verdict(&self) -> (ended: Result<(), String>)
        ensures
            match ended {
                Ok(_) => self@.calls_failed == 0,
                Err(message) => self@.calls_failed > 0 && message@ == calls_failed_text(
                    self@.calls_failed,
                ),
            },
            ended is Ok <==> self.calls_failed == 0,
    {
        if self.calls_failed == 0 {
            Ok(())
        } else {
            let mut message: String = text::decimal(self.calls_failed as u64);
            message.append(" embed or store call(s) failed");
            Err(message)
        }
    }
}

// --- The state of a backfill ------------------------------------------------

/// How far a backfill has come.
pub struct Progress {
    pub embedder: EmbedderView,
    pub candidates: Seq<CandidateView>,
    /// The pages to skip: they have a matching embedding already.
    pub already: Set<PageId>,
    pub dry_run: bool,
    /// How many candidates are settled; the next one is at this index.
    pub position: nat,
    pub embedded: nat,
    pub skipped: nat,
    pub failed: nat,
    /// How many of the failed pages failed in a call of the embedder or the
    /// store.
    pub calls_failed: nat,
}

/// What is to be done next, and how far the backfill has come.
pub enum StepView {
    /// Ask the store which pages have a matching embedding.
    LoadEmbeddings(Progress),
    /// Read the page at the current position.
    ReadPage(Progress),
    /// Embed the body of the page at the current position.
    Embed(Progress, Seq<char>),
    /// Store the embedding of the page at the current position.
    Store(Progress, Seq<u8>),
    /// Nothing: the backfill is over.
    Finished(ReportView),
}

/// What became of a candidate.
pub enum Outcome {
    Embedded,
    Skipped,
    /// The page could not be read.
    Unreadable,
    /// Its body could not be embedded, or its embedding not be stored.
    CallFailed,
}

impl Progress {
    /// Every candidate that is settled was counted once.
    pub open spec fn sound(self) -> bool {
        &&& self.position <= self.candidates.len()
        &&& self.embedded + self.skipped + self.failed == self.position
        &&& self.calls_failed <= self.failed
    }

    /// The candidate at the current position.
    pub open spec fn current(self) -> CandidateView {
        self.candidates[self.position as int]
    }

    /// The progress once the current candidate is settled.
    pub open spec fn settled(self, outcome: Outcome) -> Progress {
        Progress {
            position: self.position + 1,
            embedded: self.embedded + (if outcome is Embedded { 1nat } else { 0 }),
            skipped: self.skipped + (if outcome is Skipped { 1nat } else { 0 }),
            failed: self.failed + (if outcome is Unreadable || outcome is CallFailed {
                1nat
            } else {
                0
            }),
            calls_failed: self.calls_failed + (if outcome is CallFailed { 1nat } else { 0 }),
            ..self
        }
    }

    /// The report of a backfill that ends here.
    pub open spec fn report(self) -> ReportView {
        ReportView {
            dry_run: self.dry_run,
            embedder: self.embedder,
            embedded: self.embedded,
            skipped: self.skipped,
            failed: self.failed,
            calls_failed: self.calls_failed,
        }
    }

    /// The next step: read the next page that has no matching embedding yet,
    /// counting those passed over as skipped, or finish if there is none.
    pub open spec fn resumed(self) -> StepView
        decreases self.candidates.len() - self.position,
    {
        if self.position >= self.candidates.len() {
            StepView::Finished(self.report())
        } else if self.already.contains(self.current().id) {
            self.settled(Outcome::Skipped).resumed()
        } else {
            StepView::ReadPage(self)
        }
    }

    /// The step after reading the current page: a page that cannot be read has
    /// failed, a dry run counts a readable page as embedded, and otherwise its
    /// body is embedded.
    pub open spec fn page_read(self, body: Option<Seq<char>>) -> StepView {
        match body {
            None => self.settled(Outcome::Unreadable).resumed(),
            Some(body) => if self.dry_run {
                self.settled(Outcome::Embedded).resumed()
            } else {
                StepView::Embed(self, body)
            },
        }
    }

    /// The step after embedding the current page's body: a page that could not
    /// be embedded has failed, otherwise the embedding is stored.
    pub open spec fn body_embedded(self, vector: Option<Seq<u8>>) -> StepView {
        match vector {
            None => self.settled(Outcome::CallFailed).resumed(),
            Some(vector) => StepView::Store(self, vector),
        }
    }

    /// The step after storing the current page's embedding.
    pub open spec fn embedding_stored(self, stored: bool) -> StepView {
        self.settled(if stored { Outcome::Embedded } else { Outcome::CallFailed }).resumed()
    }
}

/// The progress of a backfill that has not looked at any candidate.
pub open spec fn fresh(
    embedder: EmbedderView,
    candidates: Seq<CandidateView>,
    already: Set<PageId>,
    dry_run: bool,
) -> Progress {
    Progress {
        embedder,
        candidates,
        already,
        dry_run,
        position: 0,
        embedded: 0,
        skipped: 0,
        failed: 0,
        calls_failed: 0,
    }
}

/// The first step of a backfill: unless it is forced, it has to know which
/// pages can be skipped.
pub open spec fn first_step(
    embedder: EmbedderView,
    candidates: Seq<CandidateView>,
    force: bool,
    dry_run: bool,
) -> StepView {
    let start = fresh(embedder, candidates, Set::empty(), dry_run);
    if force {
        start.resumed()
    } else {
        StepView::LoadEmbeddings(start)
    }
}

impl Progress {
    /// The step after the store named the pages that have a matching
    /// embedding.
    pub open spec fn embeddings_loaded(self, stored: Seq<PageId>) -> StepView {
        Progress { already: stored.to_set(), ..self }.resumed()
    }
}

struct Backfill {
    embedder: Embedder,
    candidates: Vec<Candidate>,
    already: HashSet<u128>,
    dry_run: bool,
    position: usize,
    embedded: usize,
    skipped: usize,
    failed: usize,
    calls_failed: usize,
}

impl View for Backfill {
    type V = Progress;

    closed spec fn view(&self) -> Progress {
        Progress {
            embedder: self.embedder@,
            candidates: candidate_views(self.candidates@),
            already: Set::new(|page: PageId| self.already@.contains(page.key)),
            dry_run: self.dry_run,
            position: self.position as nat,
            embedded: self.embedded as nat,
            skipped: self.skipped as nat,
            failed: self.failed as nat,
            calls_failed: self.calls_failed as nat,
        }
    }
}

impl Backfill {
    fn settle(self, outcome: Outcome) -> (run: Backfill)
        requires
            self@.sound(),
            self@.position < self@.candidates.len(),
        ensures
            run@ == self@.settled(outcome),
            run@.sound(),
    {
        assert(self@.candidates.len() == self.candidates.len());
        let mut run: Backfill = self;
        match outcome {
            Outcome::Embedded => {
                run.embedded = run.embedded + 1;
            },
            Outcome::Skipped => {
                run.skipped = run.skipped + 1;
            },
            Outcome::Unreadable => {
                run.failed = run.failed + 1;
            },
            Outcome::CallFailed => {
                run.failed = run.failed + 1;
                run.calls_failed = run.calls_failed + 1;
            },
        }
        run.position = run.position + 1;
        run
    }

    fn resume(self) -> (step: BackfillStep)
        requires
            self@.sound(),
        ensures
            step@ == self@.resumed(),
    {
        let mut run: Backfill = self;
        while run.position < run.candidates.len() && run.already.contains(
            &run.candidates[run.position].id.key,
        )
            invariant
                run@.sound(),
                run@.resumed() == self@.resumed(),
            decreases run@.candidates.len() - run@.position,
        {
            run = run.settle(Outcome::Skipped);
        }
        if run.position < run.candidates.len() {
            BackfillStep::ReadPage(PendingPage { run })
        } else {
            BackfillStep::Finished(
                EmbedReport {
                    dry_run: run.dry_run,
                    embedder: run.embedder,
                    embedded: run.embedded,
                    skipped: run.skipped,
                    failed: run.failed,
                    calls_failed: run.calls_failed,
                },
            )
        }
    }
}

/// What is to be done next.
pub enum BackfillStep {
    /// Ask the store which pages have a matching embedding.
    LoadEmbeddings(PendingEmbeddings),
    /// Read a page from the wiki.
    ReadPage(PendingPage),
    /// Embed the body of a page.
    Embed(PendingVector),
    /// Store the embedding of a page.
    Store(PendingStore),
    /// Print the report: the backfill is over.
    Finished(EmbedReport),
}

impl View for BackfillStep {
    type V = StepView;

    open spec fn view(&self) -> StepView {
        match self {
            BackfillStep::LoadEmbeddings(pending) => StepView::LoadEmbeddings(pending@),
            BackfillStep::ReadPage(pending) => StepView::ReadPage(pending@),
            BackfillStep::Embed(pending) => StepView::Embed(pending@, pending.spec_body()),
            BackfillStep::Store(pending) => StepView::Store(pending@, pending.spec_vector()),
            BackfillStep::Finished(report) => StepView::Finished(report@),
        }
    }
}

/// A backfill that waits for the pages with a matching embedding.
pub struct PendingEmbeddings {
    run: Backfill,
}

/// A backfill that waits for the page at its position.
pub struct PendingPage {
    run: Backfill,
}

/// A backfill that waits for the embedding of the page at its position.
pub struct PendingVector {
    run: Backfill,
    body: String,
}

/// A backfill that waits for the embedding of the page at its position to be
/// stored.
pub struct PendingStore {
    run: Backfill,
    vector: Vec<u8>,
}

/// Runs a backfill of the candidates up to the first thing that has to be done
/// outside.
pub fn run(embedder: Embedder, candidates: Vec<Candidate>, force: bool, dry_run: bool) -> (step:
    BackfillStep)
    ensures
        step@ == first_step(embedder@, candidate_views(candidates@), force, dry_run),
{
    let run: Backfill = Backfill {
        embedder,
        candidates,
        already: HashSet::new(),
        dry_run,
        position: 0,
        embedded: 0,
        skipped: 0,
        failed: 0,
        calls_failed: 0,
    };
    assert(run@.already =~= Set::empty());
    if force {
        run.resume()
    } else {
        BackfillStep::LoadEmbeddings(PendingEmbeddings { run })
    }
}

impl View for PendingEmbeddings {
    type V = Progress;

    closed spec fn view(&self) -> Progress {
        self.run@
    }
}

impl PendingEmbeddings {
    #[verifier::type_invariant]
    spec fn well_formed(self) -> bool {
        self.run@.sound()
    }

    /// The embedder whose embeddings are asked for.
    pub fn embedder(&self) -> (embedder: &Embedder)
        ensures
            embedder@ == self@.embedder,
    {
        &self.run.embedder
    }

    /// Goes on with the pages that have a matching embedding.
    pub fn loaded(self, stored: &Vec<PageId>) -> (step: BackfillStep)
        ensures
            step@ == self@.embeddings_loaded(stored@),
    {
        proof {
            use_type_invariant(&self);
        }
        let mut run: Backfill = self.run;
        let mut already: HashSet<u128> = HashSet::new();
        let mut i: usize = 0;
        while i < stored.len()
            invariant
                i <= stored.len(),
                forall|key: u128| #[trigger]
                    already@.contains(key) <==> exists|j: int|
                        0 <= j < i && (#[trigger] stored@[j]).key == key,
            decreases stored.len() - i,
        {
            let ghost before = already@;
            already.insert(stored[i].key);
            assert(already@ == before.insert(stored@[i as int].key));
            i = i + 1;
        }
        run.already = already;
        proof {
            assert forall|page: PageId| run@.already.contains(page) <==> #[trigger]
                stored@.to_set().contains(page) by {
                if already@.contains(page.key) {
                    let j = choose|j: int| 0 <= j < i && (#[trigger] stored@[j]).key == page.key;
                    assert(stored@[j] == page);
                }
                if stored@.contains(page) {
                    let j = choose|j: int| 0 <= j < stored@.len() && stored@[j] == page;
                    assert(stored@[j].key == page.key);
                }
            }
            assert(run@.already =~= stored@.to_set());
        }
        run.resume()
    }
}

impl View for PendingPage {
    type V = Progress;

    closed spec fn view(&self) -> Progress {
        self.run@
    }
}

impl PendingPage {
    #[verifier::type_invariant]
    spec fn well_formed(self) -> bool {
        self.run@.sound() && self.run@.position < self.run@.candidates.len()
    }

    /// The path of the page to read.
    pub fn path(&self) -> (path: &String)
        ensures
            path@ == self@.current().path,
    {
        proof {
            use_type_invariant(self);
        }
        &self.run.candidates[self.run.position].path
    }

    /// Goes on with the body of the page, or without it if the page could not
    /// be read.
    pub fn page_read(self, body: Option<String>) -> (step: BackfillStep)
        ensures
            step@ == self@.page_read(
                match body {
                    Some(body) => Some(body@),
                    None => None,
                },
            ),
            body is Some && !self@.dry_run ==> step@ == StepView::Embed(self@, body->0@),
    {
        proof {
            use_type_invariant(&self);
        }
        match body {
            None => self.run.settle(Outcome::Unreadable).resume(),
            Some(body) => if self.run.dry_run {
                self.run.settle(Outcome::Embedded).resume()
            } else {
                BackfillStep::Embed(PendingVector { run: self.run, body })
            },
        }
    }
}

impl View for PendingVector {
    type V = Progress;

    closed spec fn view(&self) -> Progress {
        self.run@
    }
}

impl PendingVector {
    #[verifier::type_invariant]
    spec fn well_formed(self) -> bool {
        self.run@.sound() && self.run@.position < self.run@.candidates.len()
    }

    /// The body to embed.
    pub closed spec fn spec_body(&self) -> Seq<char> {
        self.body@
    }

    /// The body to embed.
    pub fn body(&self) -> (body: &String)
        ensures
            body@ == self.spec_body(),
    {
        &self.body
    }

    /// The path of the page that the body belongs to.
    pub fn path(&self) -> (path: &String)
        ensures
            path@ == self@.current().path,
    {
        proof {
            use_type_invariant(self);
        }
        &self.run.candidates[self.run.position].path
    }

    /// Goes on with the embedding in the store's byte form, or without it if
    /// the body could not be embedded.
    pub fn embedded(self, vector: Option<Vec<u8>>) -> (step: BackfillStep)
        ensures
            step@ == self@.body_embedded(
                match vector {
                    Some(vector) => Some(vector@),
                    None => None,
                },
            ),
            vector is Some ==> step@ == StepView::Store(self@, vector->0@),
    {
        proof {
            use_type_invariant(&self);
        }
        match vector {
            None => self.run.settle(Outcome::CallFailed).resume(),
            Some(vector) => BackfillStep::Store(PendingStore { run: self.run, vector }),
        }
    }
}

impl View for PendingStore {
    type V = Progress;

    closed spec fn view(&self) -> Progress {
        self.run@
    }
}

impl PendingStore {
    #[verifier::type_invariant]
    spec fn well_formed(self) -> bool {
        self.run@.sound() && self.run@.position < self.run@.candidates.len()
    }

    /// The embedding to store.
    pub closed spec fn spec_vector(&self) -> Seq<u8> {
        self.vector@
    }

    /// The embedding to store.
    pub fn vector(&self) -> (vector: &Vec<u8>)
        ensures
            vector@ == self.spec_vector(),
    {
        &self.vector
    }

    /// The page that the embedding is stored for.
    pub fn id(&self) -> (id: PageId)
        ensures
            id == self@.current().id,
    {
        proof {
            use_type_invariant(self);
        }
        self.run.candidates[self.run.position].id
    }

    /// The path of the page that the embedding is stored for.
    pub fn path(&self) -> (path: &String)
        ensures
            path@ == self@.current().path,
    {
        proof {
            use_type_invariant(self);
        }
        &self.run.candidates[self.run.position].path
    }

    /// The embedder that the embedding is stored under.
    pub fn embedder(&self) -> (embedder: &Embedder)
        ensures
            embedder@ == self@.embedder,
    {
        &self.run.embedder
    }

    /// Goes on, knowing whether the embedding was stored.
    pub fn stored(self, stored: bool) -> (step: BackfillStep)
        ensures
            step@ == self@.embedding_stored(stored),
    {
        proof {
            use_type_invariant(&self);
        }
        let outcome: Outcome = if stored { Outcome::Embedded } else { Outcome::CallFailed };
        self.run.settle(outcome).resume()
    }
}

// --- Laws -------------------------------------------------------------------

/// How the outside answers a backfill: which pages have a matching embedding,
/// and for each candidate, by its index, what reading its page, embedding its
/// body and storing its embedding come to.
pub struct Answers {
    pub embeddings: Seq<PageId>,
    pub page: spec_fn(int) -> Option<Seq<char>>,
    pub vector: spec_fn(int) -> Option<Seq<u8>>,
    pub stored: spec_fn(int) -> bool,
}

/// One thing that a backfill has done outside, with what it hands out for it.
pub enum Call {
    /// Ask for the pages that have an embedding of the given embedder.
    LoadEmbeddings(EmbedderView),
    /// Read the page at the given path.
    ReadPage(Seq<char>),
    /// Embed the given body.
    Embed(Seq<char>),
    /// Store the given embedding of a page, under the given embedder.
    Store(PageId, Seq<u8>, EmbedderView),
}

/// What a whole backfill comes to: its report, all that it had done outside, in
/// order, and the pages whose embeddings were stored.
pub struct Run {
    pub report: ReportView,
    pub calls: Seq<Call>,
    pub written: Set<PageId>,
}

/// The run that makes the call and then goes on as `rest`.
pub open spec fn after_call(call: Call, rest: Run) -> Run {
    Run { calls: seq![call] + rest.calls, ..rest }
}

/// How many candidates are not settled at `step`.
pub open spec fn remaining(step: StepView) -> nat {
    let progress = match step {
        StepView::LoadEmbeddings(progress) => Some(progress),
        StepView::ReadPage(progress) => Some(progress),
        StepView::Embed(progress, _) => Some(progress),
        StepView::Store(progress, _) => Some(progress),
        StepView::Finished(_) => None,
    };
    match progress {
        Some(progress) if progress.position <= progress.candidates.len() => (
        progress.candidates.len() - progress.position) as nat,
        _ => 0,
    }
}

/// How many more steps the current candidate can take at `step`.
pub open spec fn rank(step: StepView) -> nat {
    match step {
        StepView::LoadEmbeddings(_) => 3,
        StepView::ReadPage(_) => 2,
        StepView::Embed(_, _) => 1,
        StepView::Store(_, _) => 0,
        StepView::Finished(_) => 0,
    }
}

/// Resuming settles candidates, and never brings one back.
pub proof fn lemma_resumed_remaining(progress: Progress)
    ensures
        remaining(progress.resumed()) <= progress.candidates.len() - progress.position
            || progress.position > progress.candidates.len() && remaining(progress.resumed()) == 0,
        progress.resumed() is ReadPage || progress.resumed() is Finished,
    decreases progress.candidates.len() - progress.position,
{
    if progress.position < progress.candidates.len() && progress.already.contains(
        progress.current().id,
    ) {
        lemma_resumed_remaining(progress.settled(Outcome::Skipped));
    }
}

/// The backfill from `step` to its end, under the given answers.
pub open spec fn whole_run(step: StepView, answers: Answers) -> Run
    decreases remaining(step), rank(step),
{
    match step {
        StepView::LoadEmbeddings(progress) => {
            proof {
                lemma_resumed_remaining(
                    Progress { already: answers.embeddings.to_set(), ..progress },
                );
            }
            after_call(
                Call::LoadEmbeddings(progress.embedder),
                whole_run(progress.embeddings_loaded(answers.embeddings), answers),
            )
        },
        StepView::ReadPage(progress) => if progress.position < progress.candidates.len() {
            proof {
                lemma_resumed_remaining(progress.settled(Outcome::Unreadable));
                lemma_resumed_remaining(progress.settled(Outcome::Embedded));
            }
            after_call(
                Call::ReadPage(progress.current().path),
                whole_run(progress.page_read((answers.page)(progress.position as int)), answers),
            )
        } else {
            Run { report: progress.report(), calls: Seq::empty(), written: Set::empty() }
        },
        StepView::Embed(progress, body) => if progress.position < progress.candidates.len() {
            proof {
                lemma_resumed_remaining(progress.settled(Outcome::CallFailed));
            }
            after_call(
                Call::Embed(body),
                whole_run(
                    progress.body_embedded((answers.vector)(progress.position as int)),
                    answers,
                ),
            )
        } else {
            Run { report: progress.report(), calls: Seq::empty(), written: Set::empty() }
        },
        StepView::Store(progress, vector) => if progress.position < progress.candidates.len() {
            proof {
                lemma_resumed_remaining(progress.settled(Outcome::CallFailed));
                lemma_resumed_remaining(progress.settled(Outcome::Embedded));
            }
            let stored = (answers.stored)(progress.position as int);
            let rest = after_call(
                Call::Store(progress.current().id, vector, progress.embedder),
                whole_run(progress.embedding_stored(stored), answers),
            );
            if stored {
                Run { written: rest.written.insert(progress.current().id), ..rest }
            } else {
                rest
            }
        } else {
            Run { report: progress.report(), calls: Seq::empty(), written: Set::empty() }
        },
        StepView::Finished(report) => Run {
            report,
            calls: Seq::empty(),
            written: Set::empty(),
        },
    }
}

/// What becomes of the candidate at index `i`.
pub open spec fn outcome_of(
    candidates: Seq<CandidateView>,
    already: Set<PageId>,
    dry_run: bool,
    answers: Answers,
    i: int,
) -> Outcome {
    if already.contains(candidates[i].id) {
        Outcome::Skipped
    } else if (answers.page)(i) is None {
        Outcome::Unreadable
    } else if dry_run {
        Outcome::Embedded
    } else if (answers.vector)(i) is None || !(answers.stored)(i) {
        Outcome::CallFailed
    } else {
        Outcome::Embedded
    }
}

/// How many of the first `n` candidates come to `outcome`.
pub open spec fn count_of(
    candidates: Seq<CandidateView>,
    already: Set<PageId>,
    dry_run: bool,
    answers: Answers,
    outcome: Outcome,
    n: nat,
) -> nat
    decreases n,
{
    if n == 0 {
        0
    } else {
        count_of(candidates, already, dry_run, answers, outcome, (n - 1) as nat) + (if outcome_of(
            candidates,
            already,
            dry_run,
            answers,
            n - 1,
        ) == outcome {
            1nat
        } else {
            0
        })
    }
}

/// What is done outside for the candidate at index `i`: nothing if it has an
/// embedding; otherwise its page is read, and unless that fails or the run is
/// dry, the body that was read is embedded, and unless that fails, the
/// embedding that came of it is stored for the page.
pub open spec fn calls_for(
    embedder: EmbedderView,
    candidates: Seq<CandidateView>,
    already: Set<PageId>,
    dry_run: bool,
    answers: Answers,
    i: int,
) -> Seq<Call> {
    let read = Call::ReadPage(candidates[i].path);
    if already.contains(candidates[i].id) {
        Seq::empty()
    } else {
        match (answers.page)(i) {
            None => seq![read],
            Some(body) => if dry_run {
                seq![read]
            } else {
                match (answers.vector)(i) {
                    None => seq![read, Call::Embed(body)],
                    Some(vector) => seq![
                        read,
                        Call::Embed(body),
                        Call::Store(candidates[i].id, vector, embedder),
                    ],
                }
            },
        }
    }
}

/// What is done outside for the candidates from index `n` on, in their order.
pub open spec fn calls_from(
    embedder: EmbedderView,
    candidates: Seq<CandidateView>,
    already: Set<PageId>,
    dry_run: bool,
    answers: Answers,
    n: nat,
) -> Seq<Call>
    decreases candidates.len() - n,
{
    if n >= candidates.len() {
        Seq::empty()
    } else {
        calls_for(embedder, candidates, already, dry_run, answers, n as int) + calls_from(
            embedder,
            candidates,
            already,
            dry_run,
            answers,
            n + 1,
        )
    }
}

/// The progress of a backfill that settled the first `n` candidates.
spec fn progress_at(start: Progress, answers: Answers, n: nat) -> Progress {
    let count = |outcome: Outcome|
        count_of(start.candidates, start.already, start.dry_run, answers, outcome, n);
    Progress {
        position: n,
        embedded: count(Outcome::Embedded),
        skipped: count(Outcome::Skipped),
        failed: count(Outcome::Unreadable) + count(Outcome::CallFailed),
        calls_failed: count(Outcome::CallFailed),
        ..start
    }
}

spec fn comes_to(start: Progress, answers: Answers, i: int) -> Outcome {
    outcome_of(start.candidates, start.already, start.dry_run, answers, i)
}

/// From any point on, a backfill counts the outcomes of the candidates that
/// are left, and stores the embeddings of those that come to be embedded.
#[verifier::rlimit(40)]
proof fn lemma_run_from(start: Progress, answers: Answers, n: nat)
    requires
        n <= start.candidates.len(),
    ensures
        ({
            let end = whole_run(progress_at(start, answers, n).resumed(), answers);
            &&& end.report == progress_at(start, answers, start.candidates.len()).report()
            &&& end.calls == calls_from(
                start.embedder,
                start.candidates,
                start.already,
                start.dry_run,
                answers,
                n,
            )
            &&& start.dry_run ==> end.written == Set::<PageId>::empty()
            &&& !start.dry_run ==> {
                &&& forall|i: int|
                    n <= i < start.candidates.len() && comes_to(start, answers, i)
                        is Embedded ==> end.written.contains((#[trigger] start.candidates[i]).id)
                &&& forall|id: PageId| #[trigger]
                    end.written.contains(id) ==> exists|i: int|
                        n <= i < start.candidates.len() && comes_to(start, answers, i) is Embedded
                            && (#[trigger] start.candidates[i]).id == id
            }
        }),
    decreases start.candidates.len() - n,
{
    let here = progress_at(start, answers, n);
    let end = whole_run(here.resumed(), answers);
    if n < start.candidates.len() {
        let outcome = comes_to(start, answers, n as int);
        let next = progress_at(start, answers, n + 1);
        assert(next == here.settled(outcome));
        lemma_run_from(start, answers, n + 1);
        let rest = whole_run(next.resumed(), answers);
        reveal_with_fuel(whole_run, 4);
        if outcome is Embedded && !start.dry_run {
            assert(end.written == rest.written.insert(start.candidates[n as int].id));
        } else {
            assert(end.written == rest.written);
        }
        assert(end.report == rest.report);
        assert(end.calls =~= calls_for(
            start.embedder,
            start.candidates,
            start.already,
            start.dry_run,
            answers,
            n as int,
        ) + rest.calls);
        if !start.dry_run {
            assert forall|i: int|
                n <= i < start.candidates.len() && comes_to(start, answers, i)
                    is Embedded implies end.written.contains(
                (#[trigger] start.candidates[i]).id,
            ) by {
                if i > n {
                    assert(rest.written.contains(start.candidates[i].id));
                }
            }
            assert forall|id: PageId| #[trigger] end.written.contains(id) implies exists|i: int|
                n <= i < start.candidates.len() && comes_to(start, answers, i) is Embedded && (
                #[trigger] start.candidates[i]).id == id by {
                if rest.written.contains(id) {
                    let i = choose|i: int|
                        n + 1 <= i < start.candidates.len() && comes_to(start, answers, i)
                            is Embedded && (#[trigger] start.candidates[i]).id == id;
                    assert(start.candidates[i].id == id);
                } else {
                    assert(start.candidates[n as int].id == id);
                }
            }
        }
    }
}

/// The pages that a backfill skips: none if it is forced, otherwise those
/// that have a matching embedding.
pub open spec fn skippable(force: bool, answers: Answers) -> Set<PageId> {
    if force {
        Set::empty()
    } else {
        answers.embeddings.to_set()
    }
}

proof fn lemma_whole_run(
    embedder: EmbedderView,
    candidates: Seq<CandidateView>,
    force: bool,
    dry_run: bool,
    answers: Answers,
)
    ensures
        ({
            let start = fresh(embedder, candidates, skippable(force, answers), dry_run);
            let rest = whole_run(progress_at(start, answers, 0).resumed(), answers);
            whole_run(first_step(embedder, candidates, force, dry_run), answers) == if force {
                rest
            } else {
                after_call(Call::LoadEmbeddings(embedder), rest)
            }
        }),
{
    reveal_with_fuel(whole_run, 2);
    let start = fresh(embedder, candidates, skippable(force, answers), dry_run);
    assert(progress_at(start, answers, 0) == start);
}

/// Whatever the outside answers, a backfill reports for each outcome how many
/// candidates came to it, and reports the embedder and mode it ran with.
pub proof fn law_report_counts_the_outcomes(
    embedder: EmbedderView,
    candidates: Seq<CandidateView>,
    force: bool,
    dry_run: bool,
    answers: Answers,
)
    ensures
        ({
            let report = whole_run(first_step(embedder, candidates, force, dry_run), answers).report;
            let already = skippable(force, answers);
            let n = candidates.len();
            &&& report.dry_run == dry_run
            &&& report.embedder == embedder
            &&& report.embedded == count_of(
                candidates,
                already,
                dry_run,
                answers,
                Outcome::Embedded,
                n,
            )
            &&& report.skipped == count_of(
                candidates,
                already,
                dry_run,
                answers,
                Outcome::Skipped,
                n,
            )
            &&& report.failed == count_of(
                candidates,
                already,
                dry_run,
                answers,
                Outcome::Unreadable,
                n,
            ) + report.calls_failed
            &&& report.calls_failed == count_of(
                candidates,
                already,
                dry_run,
                answers,
                Outcome::CallFailed,
                n,
            )
        }),
{
    let start = fresh(embedder, candidates, skippable(force, answers), dry_run);
    lemma_whole_run(embedder, candidates, force, dry_run, answers);
    lemma_run_from(start, answers, 0);
}

proof fn lemma_counts_add_up(
    candidates: Seq<CandidateView>,
    already: Set<PageId>,
    dry_run: bool,
    answers: Answers,
    n: nat,
)
    ensures
        count_of(candidates, already, dry_run, answers, Outcome::Embedded, n) + count_of(
            candidates,
            already,
            dry_run,
            answers,
            Outcome::Skipped,
            n,
        ) + count_of(candidates, already, dry_run, answers, Outcome::Unreadable, n) + count_of(
            candidates,
            already,
            dry_run,
            answers,
            Outcome::CallFailed,
            n,
        ) == n,
    decreases n,
{
    if n > 0 {
        lemma_counts_add_up(candidates, already, dry_run, answers, (n - 1) as nat);
    }
}

/// Every candidate is counted exactly once: as embedded, skipped or failed.
pub proof fn law_every_candidate_is_counted_once(
    embedder: EmbedderView,
    candidates: Seq<CandidateView>,
    force: bool,
    dry_run: bool,
    answers: Answers,
)
    ensures
        ({
            let report = whole_run(first_step(embedder, candidates, force, dry_run), answers).report;
            report.embedded + report.skipped + report.failed == candidates.len()
        }),
{
    law_report_counts_the_outcomes(embedder, candidates, force, dry_run, answers);
    lemma_counts_add_up(
        candidates,
        skippable(force, answers),
        dry_run,
        answers,
        candidates.len(),
    );
}

proof fn lemma_nothing_comes_to(
    candidates: Seq<CandidateView>,
    already: Set<PageId>,
    dry_run: bool,
    answers: Answers,
    outcome: Outcome,
    n: nat,
)
    ensures
        count_of(candidates, already, dry_run, answers, outcome, n) == 0 <==> forall|i: int|
            0 <= i < n ==> #[trigger] outcome_of(candidates, already, dry_run, answers, i)
                != outcome,
    decreases n,
{
    if n > 0 {
        lemma_nothing_comes_to(
            candidates,
            already,
            dry_run,
            answers,
            outcome,
            (n - 1) as nat,
        );
        let last = outcome_of(candidates, already, dry_run, answers, n - 1);
        if count_of(candidates, already, dry_run, answers, outcome, n) == 0 {
            assert forall|i: int| 0 <= i < n implies #[trigger] outcome_of(
                candidates,
                already,
                dry_run,
                answers,
                i,
            ) != outcome by {
                if i == n - 1 {
                    assert(last != outcome);
                }
            }
        }
    }
}

/// Pages that have a matching embedding are never read: resuming goes to the
/// first page from its position on that has none, and counts the pages passed
/// over as skipped.
pub proof fn law_embedded_pages_are_not_read(progress: Progress)
    ensures
        progress.resumed() matches StepView::ReadPage(next) ==> {
            &&& progress.position <= next.position < progress.candidates.len()
            &&& !progress.already.contains(progress.candidates[next.position as int].id)
            &&& forall|i: int|
                progress.position <= i < next.position ==> progress.already.contains(
                    (#[trigger] progress.candidates[i]).id,
                )
            &&& next == Progress {
                position: next.position,
                skipped: (progress.skipped + next.position - progress.position) as nat,
                ..progress
            }
        },
    decreases progress.candidates.len() - progress.position,
{
    if progress.position < progress.candidates.len() && progress.already.contains(
        progress.current().id,
    ) {
        law_embedded_pages_are_not_read(progress.settled(Outcome::Skipped));
    }
}

/// A run ends well exactly if no call of the embedder or the store failed for
/// any page; a page that could not be read is counted but is no error.
pub proof fn law_error_iff_a_call_failed(
    embedder: EmbedderView,
    candidates: Seq<CandidateView>,
    force: bool,
    dry_run: bool,
    answers: Answers,
)
    ensures
        whole_run(first_step(embedder, candidates, force, dry_run), answers).report.calls_failed == 0
            <==> forall|i: int|
            0 <= i < candidates.len() ==> #[trigger] outcome_of(
                candidates,
                skippable(force, answers),
                dry_run,
                answers,
                i,
            ) != Outcome::CallFailed,
{
    law_report_counts_the_outcomes(embedder, candidates, force, dry_run, answers);
    lemma_nothing_comes_to(
        candidates,
        skippable(force, answers),
        dry_run,
        answers,
        Outcome::CallFailed,
        candidates.len(),
    );
}

/// A forced backfill skips nothing.
pub proof fn law_force_skips_nothing(
    embedder: EmbedderView,
    candidates: Seq<CandidateView>,
    dry_run: bool,
    answers: Answers,
)
    ensures
        whole_run(first_step(embedder, candidates, true, dry_run), answers).report.skipped == 0,
{
    law_report_counts_the_outcomes(embedder, candidates, true, dry_run, answers);
    lemma_nothing_comes_to(
        candidates,
        Set::empty(),
        dry_run,
        answers,
        Outcome::Skipped,
        candidates.len(),
    );
}

/// A dry run stores nothing.
pub proof fn law_dry_run_stores_nothing(
    embedder: EmbedderView,
    candidates: Seq<CandidateView>,
    force: bool,
    answers: Answers,
)
    ensures
        whole_run(first_step(embedder, candidates, force, true), answers).written == Set::<
            PageId,
        >::empty(),
{
    let start = fresh(embedder, candidates, skippable(force, answers), true);
    lemma_whole_run(embedder, candidates, force, true, answers);
    lemma_run_from(start, answers, 0);
}

/// Whatever reading a page comes to, a dry run goes on to the next page or
/// ends: it never asks for an embedding.
pub proof fn law_dry_run_asks_for_no_embedding(progress: Progress, body: Option<Seq<char>>)
    requires
        progress.dry_run,
    ensures
        progress.page_read(body) is ReadPage || progress.page_read(body) is Finished,
{
    lemma_resumed_remaining(progress.settled(Outcome::Unreadable));
    lemma_resumed_remaining(progress.settled(Outcome::Embedded));
}

/// A backfill that is not a dry run stores the embeddings of exactly the pages
/// that it counts as embedded.
pub proof fn law_embedded_pages_are_stored(
    embedder: EmbedderView,
    candidates: Seq<CandidateView>,
    force: bool,
    answers: Answers,
    id: PageId,
)
    ensures
        whole_run(first_step(embedder, candidates, force, false), answers).written.contains(id)
            <==> exists|i: int|
            0 <= i < candidates.len() && (#[trigger] candidates[i]).id == id && outcome_of(
                candidates,
                skippable(force, answers),
                false,
                answers,
                i,
            ) is Embedded,
{
    let start = fresh(embedder, candidates, skippable(force, answers), false);
    let end = whole_run(first_step(embedder, candidates, force, false), answers);
    lemma_whole_run(embedder, candidates, force, false, answers);
    lemma_run_from(start, answers, 0);
    if end.written.contains(id) {
        let i = choose|i: int|
            0 <= i < start.candidates.len() && comes_to(start, answers, i) is Embedded && (
            #[trigger] start.candidates[i]).id == id;
        assert(candidates[i].id == id);
    }
    if exists|i: int|
        0 <= i < candidates.len() && (#[trigger] candidates[i]).id == id && outcome_of(
            candidates,
            skippable(force, answers),
            false,
            answers,
            i,
        ) is Embedded {
        let i = choose|i: int|
            0 <= i < candidates.len() && (#[trigger] candidates[i]).id == id && outcome_of(
                candidates,
                skippable(force, answers),
                false,
                answers,
                i,
            ) is Embedded;
        assert(comes_to(start, answers, i) is Embedded);
        assert(end.written.contains(start.candidates[i].id));
    }
}

/// A backfill need not be started over: run again, unforced, over the same
/// pages, with the embeddings there that were there before or were stored by
/// it, it skips every candidate that the first run embedded or skipped, so
/// that only failed pages can be tried again.
pub proof fn law_second_run_skips_what_is_done(
    embedder: EmbedderView,
    candidates: Seq<CandidateView>,
    force: bool,
    answers: Answers,
    again: Answers,
    i: int,
)
    requires
        0 <= i < candidates.len(),
        forall|id: PageId| #[trigger]
            again.embeddings.contains(id) <==> answers.embeddings.contains(id) || whole_run(
                first_step(embedder, candidates, force, false),
                answers,
            ).written.contains(id),
        outcome_of(candidates, skippable(force, answers), false, answers, i) is Embedded
            || outcome_of(candidates, skippable(force, answers), false, answers, i) is Skipped,
    ensures
        outcome_of(candidates, skippable(false, again), false, again, i) is Skipped,
{
    let id = candidates[i].id;
    if outcome_of(candidates, skippable(force, answers), false, answers, i) is Skipped {
        assert(answers.embeddings.contains(id));
    } else {
        law_embedded_pages_are_stored(embedder, candidates, force, answers, id);
    }
    assert(again.embeddings.contains(id));
}

/// Where every candidate that is left has an embedding, resuming skips them all.
proof fn lemma_all_skipped(progress: Progress)
    requires
        progress.position <= progress.candidates.len(),
        forall|i: int|
            progress.position <= i < progress.candidates.len() ==> progress.already.contains(
                (#[trigger] progress.candidates[i]).id,
            ),
    ensures
        progress.resumed() == StepView::Finished(
            ReportView {
                skipped: (progress.skipped + progress.candidates.len() - progress.position) as nat,
                ..progress.report()
            },
        ),
    decreases progress.candidates.len() - progress.position,
{
    if progress.position < progress.candidates.len() {
        assert(progress.already.contains(progress.current().id));
        lemma_all_skipped(progress.settled(Outcome::Skipped));
    }
}

/// A backfill without failures leaves nothing to do: run again, unforced, over
/// the same pages, with the embeddings there that were there before or were
/// stored by it, it finishes without reading a page and reports every
/// candidate as skipped.
pub proof fn law_backfill_is_idempotent(
    embedder: EmbedderView,
    candidates: Seq<CandidateView>,
    force: bool,
    answers: Answers,
    again: Answers,
)
    requires
        whole_run(first_step(embedder, candidates, force, false), answers).report.failed == 0,
        forall|id: PageId| #[trigger]
            again.embeddings.contains(id) <==> answers.embeddings.contains(id) || whole_run(
                first_step(embedder, candidates, force, false),
                answers,
            ).written.contains(id),
    ensures
        fresh(embedder, candidates, Set::empty(), false).embeddings_loaded(again.embeddings)
            == StepView::Finished(
            ReportView {
                dry_run: false,
                embedder,
                embedded: 0,
                skipped: candidates.len(),
                failed: 0,
                calls_failed: 0,
            },
        ),
{
    let already = skippable(force, answers);
    law_report_counts_the_outcomes(embedder, candidates, force, false, answers);
    lemma_nothing_comes_to(
        candidates,
        already,
        false,
        answers,
        Outcome::Unreadable,
        candidates.len(),
    );
    lemma_nothing_comes_to(
        candidates,
        already,
        false,
        answers,
        Outcome::CallFailed,
        candidates.len(),
    );
    let second = Progress {
        already: again.embeddings.to_set(),
        ..fresh(embedder, candidates, Set::empty(), false)
    };
    assert forall|i: int| 0 <= i < candidates.len() implies second.already.contains(
        (#[trigger] candidates[i]).id,
    ) by {
        assert(outcome_of(candidates, already, false, answers, i) != Outcome::Unreadable);
        assert(outcome_of(candidates, already, false, answers, i) != Outcome::CallFailed);
        law_second_run_skips_what_is_done(embedder, candidates, force, answers, again, i);
    }
    lemma_all_skipped(second);
}

/// A backfill has exactly this done outside, in this order: unless it is
/// forced, it asks for the embeddings of its embedder, and then it does for
/// each candidate in turn what there is to do for it.
pub proof fn law_backfill_makes_these_calls(
    embedder: EmbedderView,
    candidates: Seq<CandidateView>,
    force: bool,
    dry_run: bool,
    answers: Answers,
)
    ensures
        ({
            let calls = whole_run(
                first_step(embedder, candidates, force, dry_run),
                answers,
            ).calls;
            let work = calls_from(
                embedder,
                candidates,
                skippable(force, answers),
                dry_run,
                answers,
                0,
            );
            &&& force ==> calls == work
            &&& !force ==> calls == seq![Call::LoadEmbeddings(embedder)] + work
        }),
{
    let start = fresh(embedder, candidates, skippable(force, answers), dry_run);
    lemma_whole_run(embedder, candidates, force, dry_run, answers);
    lemma_run_from(start, answers, 0);
}

/// Whether the call is one that the candidate at index `i` gives rise to: to
/// read its own page, to embed the body that was read there, or to store the
/// bytes that embedding that body came to, all of them and under its own key.
spec fn call_is_for(
    call: Call,
    embedder: EmbedderView,
    candidates: Seq<CandidateView>,
    answers: Answers,
    i: int,
) -> bool {
    match call {
        Call::LoadEmbeddings(_) => false,
        Call::ReadPage(path) => path == candidates[i].path,
        Call::Embed(body) => (answers.page)(i) == Some(body),
        Call::Store(id, bytes, under) => {
            &&& id == candidates[i].id
            &&& (answers.page)(i) is Some
            &&& (answers.vector)(i) == Some(bytes)
            &&& under == embedder
        },
    }
}

/// Whether the call is for a candidate from index `n` on that is not skipped.
spec fn call_belongs(
    call: Call,
    embedder: EmbedderView,
    candidates: Seq<CandidateView>,
    already: Set<PageId>,
    answers: Answers,
    n: nat,
) -> bool {
    exists|i: int|
        n <= i < candidates.len() && !already.contains(candidates[i].id) && #[trigger] call_is_for(
            call,
            embedder,
            candidates,
            answers,
            i,
        )
}

proof fn lemma_calls_from(
    embedder: EmbedderView,
    candidates: Seq<CandidateView>,
    already: Set<PageId>,
    dry_run: bool,
    answers: Answers,
    n: nat,
)
    ensures
        ({
            let calls = calls_from(embedder, candidates, already, dry_run, answers, n);
            &&& forall|k: int|
                0 <= k < calls.len() ==> call_belongs(
                    #[trigger] calls[k],
                    embedder,
                    candidates,
                    already,
                    answers,
                    n,
                )
            &&& forall|k: int|
                0 <= k < calls.len() && dry_run ==> (#[trigger] calls[k]) is ReadPage
            &&& forall|i: int, call: Call|
                n <= i < candidates.len() && #[trigger] calls_for(
                    embedder,
                    candidates,
                    already,
                    dry_run,
                    answers,
                    i,
                ).contains(call) ==> calls.contains(call)
        }),
    decreases candidates.len() - n,
{
    if n < candidates.len() {
        let calls = calls_from(embedder, candidates, already, dry_run, answers, n);
        let here = calls_for(embedder, candidates, already, dry_run, answers, n as int);
        let rest = calls_from(embedder, candidates, already, dry_run, answers, n + 1);
        lemma_calls_from(embedder, candidates, already, dry_run, answers, n + 1);
        assert forall|k: int| 0 <= k < calls.len() implies call_belongs(
            #[trigger] calls[k],
            embedder,
            candidates,
            already,
            answers,
            n,
        ) by {
            if k < here.len() {
                assert(calls[k] == here[k]);
                assert(call_is_for(here[k], embedder, candidates, answers, n as int));
            } else {
                let j = k - here.len();
                assert(calls[k] == rest[j]);
                assert(call_belongs(rest[j], embedder, candidates, already, answers, n + 1));
                let i = choose|i: int|
                    n + 1 <= i < candidates.len() && !already.contains(candidates[i].id)
                        && #[trigger] call_is_for(rest[j], embedder, candidates, answers, i);
                assert(call_is_for(calls[k], embedder, candidates, answers, i));
            }
        }
        assert forall|k: int| 0 <= k < calls.len() && dry_run implies (
        #[trigger] calls[k]) is ReadPage by {
            if k < here.len() {
                assert(calls[k] == here[k]);
            } else {
                assert(calls[k] == rest[k - here.len()]);
            }
        }
        assert forall|i: int, call: Call|
            n <= i < candidates.len() && #[trigger] calls_for(
                embedder,
                candidates,
                already,
                dry_run,
                answers,
                i,
            ).contains(call) implies calls.contains(call) by {
            if i == n {
                let k = choose|k: int| 0 <= k < here.len() && here[k] == call;
                assert(calls[k] == call);
            } else {
                assert(rest.contains(call));
                let k = choose|k: int| 0 <= k < rest.len() && rest[k] == call;
                assert(calls[here.len() + k] == call);
            }
        }
    }
}

/// Nothing is handed out but what belongs together: whatever a backfill does
/// outside past asking for the embeddings, it does for a candidate that has
/// none. A page is read at the path of that candidate, a body is embedded that
/// was read there, and for the candidate's key exactly the bytes are stored
/// that embedding its body came to. A dry run does nothing but read.
pub proof fn law_calls_hand_out_what_came_in(
    embedder: EmbedderView,
    candidates: Seq<CandidateView>,
    force: bool,
    dry_run: bool,
    answers: Answers,
    call: Call,
)
    requires
        whole_run(first_step(embedder, candidates, force, dry_run), answers).calls.contains(call),
    ensures
        call is LoadEmbeddings ==> !force && call == Call::LoadEmbeddings(embedder),
        call matches Call::ReadPage(path) ==> exists|i: int|
            {
                &&& 0 <= i < candidates.len()
                &&& (#[trigger] candidates[i]).path == path
                &&& force || !answers.embeddings.contains(candidates[i].id)
            },
        call matches Call::Embed(body) ==> exists|i: int|
            {
                &&& 0 <= i < candidates.len()
                &&& (answers.page)(i) == Some(body)
                &&& force || !answers.embeddings.contains((#[trigger] candidates[i]).id)
            },
        call matches Call::Store(id, bytes, under) ==> under == embedder && exists|i: int|
            {
                &&& 0 <= i < candidates.len()
                &&& (#[trigger] candidates[i]).id == id
                &&& (answers.page)(i) is Some
                &&& (answers.vector)(i) == Some(bytes)
                &&& force || !answers.embeddings.contains(id)
            },
        dry_run ==> call is LoadEmbeddings || call is ReadPage,
{
    let already = skippable(force, answers);
    let calls = whole_run(first_step(embedder, candidates, force, dry_run), answers).calls;
    let work = calls_from(embedder, candidates, already, dry_run, answers, 0);
    law_backfill_makes_these_calls(embedder, candidates, force, dry_run, answers);
    lemma_calls_from(embedder, candidates, already, dry_run, answers, 0);
    let k = choose|k: int| 0 <= k < calls.len() && calls[k] == call;
    let j = if force { k } else { k - 1 };
    if 0 <= j {
        assert(work[j] == call);
        let i = choose|i: int|
            0 <= i < candidates.len() && !already.contains(candidates[i].id)
                && #[trigger] call_is_for(work[j], embedder, candidates, answers, i);
        assert(call_is_for(call, embedder, candidates, answers, i));
        let candidate = candidates[i];
        assert(force || !answers.embeddings.contains(candidate.id));
    }
}

/// Every page without an embedding is worked on: its page is read, and unless
/// the run is dry, a body that was read is embedded as it was read, and an
/// embedding that came of it is stored whole, byte by byte, for that page.
pub proof fn law_pages_without_embedding_are_worked_on(
    embedder: EmbedderView,
    candidates: Seq<CandidateView>,
    force: bool,
    dry_run: bool,
    answers: Answers,
    i: int,
)
    requires
        0 <= i < candidates.len(),
        force || !answers.embeddings.contains(candidates[i].id),
    ensures
        ({
            let calls = whole_run(
                first_step(embedder, candidates, force, dry_run),
                answers,
            ).calls;
            &&& calls.contains(Call::ReadPage(candidates[i].path))
            &&& !dry_run ==> ((answers.page)(i) matches Some(body) ==> {
                &&& calls.contains(Call::Embed(body))
                &&& (answers.vector)(i) matches Some(bytes) ==> calls.contains(
                    Call::Store(candidates[i].id, bytes, embedder),
                )
            })
        }),
{
    let already = skippable(force, answers);
    let calls = whole_run(first_step(embedder, candidates, force, dry_run), answers).calls;
    let work = calls_from(embedder, candidates, already, dry_run, answers, 0);
    let here = calls_for(embedder, candidates, already, dry_run, answers, i);
    law_backfill_makes_these_calls(embedder, candidates, force, dry_run, answers);
    lemma_calls_from(embedder, candidates, already, dry_run, answers, 0);
    assert forall|call: Call| #[trigger] work.contains(call) implies calls.contains(call) by {
        let k = choose|k: int| 0 <= k < work.len() && work[k] == call;
        assert(calls[if force { k } else { k + 1 }] == call);
    }
    assert forall|k: int| 0 <= k < here.len() implies calls.contains(#[trigger] here[k]) by {
        assert(here.contains(here[k]));
        assert(work.contains(here[k]));
    }
    assert(here[0] == Call::ReadPage(candidates[i].path));
    if !dry_run && (answers.page)(i) is Some {
        assert(here[1] == Call::Embed((answers.page)(i)->0));
        if (answers.vector)(i) is Some {
            assert(here[2] == Call::Store(candidates[i].id, (answers.vector)(i)->0, embedder));
        }
    }
}

/// The printed report of a whole run says what became of its candidates: each
/// count under its own key, with every page that could not be read, embedded
/// or stored under `failed`, and the embedder and mode that the run had. The
/// three counts add up to the number of candidates, and nothing else is
/// printed.
pub proof fn law_printed_report_accounts_for_every_page(
    embedder: EmbedderView,
    candidates: Seq<CandidateView>,
    force: bool,
    dry_run: bool,
    answers: Answers,
)
    ensures
        ({
            let fields = report_fields(
                whole_run(first_step(embedder, candidates, force, dry_run), answers).report,
            );
            let count = |outcome: Outcome|
                count_of(
                    candidates,
                    skippable(force, answers),
                    dry_run,
                    answers,
                    outcome,
                    candidates.len(),
                );
            &&& fields.dom() == set![
                "dry_run"@,
                "provider"@,
                "model"@,
                "dim"@,
                "embedded"@,
                "skipped"@,
                "failed"@,
            ]
            &&& fields["dry_run"@] == json::FieldView::Flag(dry_run)
            &&& fields["provider"@] == json::FieldView::Text(embedder.provider)
            &&& fields["model"@] == json::FieldView::Text(embedder.model)
            &&& fields["dim"@] == json::FieldView::Count(embedder.dim)
            &&& fields["embedded"@] == json::FieldView::Count(count(Outcome::Embedded))
            &&& fields["skipped"@] == json::FieldView::Count(count(Outcome::Skipped))
            &&& fields["failed"@] == json::FieldView::Count(
                count(Outcome::Unreadable) + count(Outcome::CallFailed),
            )
            &&& fields["embedded"@]->Count_0 + fields["skipped"@]->Count_0
                + fields["failed"@]->Count_0 == candidates.len()
        }),
{
    let report = whole_run(first_step(embedder, candidates, force, dry_run), answers).report;
    law_report_counts_the_outcomes(embedder, candidates, force, dry_run, answers);
    law_every_candidate_is_counted_once(embedder, candidates, force, dry_run, answers);
    law_report_prints_its_own_numbers(report);
}

/// Each number, text and flag of a report is printed under its own key.
pub proof fn law_report_prints_its_own_numbers(report: ReportView)
    ensures
        ({
            let fields = report_fields(report);
            &&& fields.dom() == set![
                "dry_run"@,
                "provider"@,
                "model"@,
                "dim"@,
                "embedded"@,
                "skipped"@,
                "failed"@,
            ]
            &&& fields["dry_run"@] == json::FieldView::Flag(report.dry_run)
            &&& fields["provider"@] == json::FieldView::Text(report.embedder.provider)
            &&& fields["model"@] == json::FieldView::Text(report.embedder.model)
            &&& fields["dim"@] == json::FieldView::Count(report.embedder.dim)
            &&& fields["embedded"@] == json::FieldView::Count(report.embedded)
            &&& fields["skipped"@] == json::FieldView::Count(report.skipped)
            &&& fields["failed"@] == json::FieldView::Count(report.failed)
        }),
{
    lemma_keys_differ();
    let fields = report_fields(report);
    assert(fields.dom() =~= set![
        "dry_run"@,
        "provider"@,
        "model"@,
        "dim"@,
        "embedded"@,
        "skipped"@,
        "failed"@,
    ]);
}

proof fn lemma_keys_differ()
    ensures
        "dry_run"@ != "provider"@,
        "dry_run"@ != "model"@,
        "dry_run"@ != "dim"@,
        "dry_run"@ != "embedded"@,
        "dry_run"@ != "skipped"@,
        "dry_run"@ != "failed"@,
        "provider"@ != "model"@,
        "provider"@ != "dim"@,
        "provider"@ != "embedded"@,
        "provider"@ != "skipped"@,
        "provider"@ != "failed"@,
        "model"@ != "dim"@,
        "model"@ != "embedded"@,
        "model"@ != "skipped"@,
        "model"@ != "failed"@,
        "dim"@ != "embedded"@,
        "dim"@ != "skipped"@,
        "dim"@ != "failed"@,
        "embedded"@ != "skipped"@,
        "embedded"@ != "failed"@,
        "skipped"@ != "failed"@,
{
    reveal_strlit("dry_run");
    reveal_strlit("provider");
    reveal_strlit("model");
    reveal_strlit("dim");
    reveal_strlit("embedded");
    reveal_strlit("skipped");
    reveal_strlit("failed");
    assert("dry_run"@[0] == 'd' && "dry_run"@[1] == 'r');
    assert("provider"@[0] == 'p');
    assert("model"@[0] == 'm');
    assert("dim"@[0] == 'd' && "dim"@[1] == 'i');
    assert("embedded"@[0] == 'e');
    assert("skipped"@[0] == 's');
    assert("failed"@[0] == 'f');
}

/// The message of a failed run starts with the number of calls that failed, in
/// decimal notation.
pub proof fn law_message_names_the_number_of_failed_calls(count: nat)
    ensures
        exists|number: Seq<char>| #[trigger]
            text::is_decimal_of(number, count) && calls_failed_text(count) == number
                + " embed or store call(s) failed"@,
{
    text::law_decimal_reads_back(count);
}

/// What the machine is told and what it reports are read field by field: no
/// view changes a value or gives it to another field.
pub proof fn law_views_keep_every_field(
    embedder: Embedder,
    candidates: Seq<Candidate>,
    report: EmbedReport,
)
    ensures
        embedder@.provider == embedder.provider@,
        embedder@.model == embedder.model@,
        embedder@.dim == embedder.dim,
        candidate_views(candidates).len() == candidates.len(),
        forall|i: int|
            0 <= i < candidates.len() ==> (#[trigger] candidate_views(candidates)[i]).id
                == candidates[i].id && candidate_views(candidates)[i].path == candidates[i].path@,
        report@.dry_run == report.dry_run,
        report@.embedder == report.embedder@,
        report@.embedded == report.embedded,
        report@.skipped == report.skipped,
        report@.failed == report.failed,
        report@.calls_failed == report.calls_failed,
{
}

/// A step shows what it hands out: the progress that its accessors read, the
/// body to embed, the embedding to store, the report to print.
pub proof fn law_steps_show_what_they_hand_out(
    load: PendingEmbeddings,
    page: PendingPage,
    vector: PendingVector,
    store: PendingStore,
    report: EmbedReport,
)
    ensures
        BackfillStep::LoadEmbeddings(load)@ == StepView::LoadEmbeddings(load@),
        BackfillStep::ReadPage(page)@ == StepView::ReadPage(page@),
        BackfillStep::Embed(vector)@ == StepView::Embed(vector@, vector.spec_body()),
        BackfillStep::Store(store)@ == StepView::Store(store@, store.spec_vector()),
        BackfillStep::Finished(report)@ == StepView::Finished(report@),
{
}

/// The accessors of a step read the candidate at its position.
pub proof fn law_current_candidate_is_at_the_position(progress: Progress)
    ensures
        progress.current() == progress.candidates[progress.position as int],
{
}

/// What becomes of a candidate, in plain terms: it is skipped exactly if the run
/// is not forced and the page has an embedding; of the others, those are
/// unreadable whose page could not be read, a call failed for those whose body
/// could not be embedded or whose embedding not be stored, which never happens
/// in a dry run, and all others are embedded.
pub proof fn law_outcomes_in_plain_terms(
    candidates: Seq<CandidateView>,
    force: bool,
    dry_run: bool,
    answers: Answers,
    i: int,
)
    ensures
        ({
            let outcome = outcome_of(candidates, skippable(force, answers), dry_run, answers, i);
            let skip = !force && answers.embeddings.contains(candidates[i].id);
            let readable = (answers.page)(i) is Some;
            let kept = (answers.vector)(i) is Some && (answers.stored)(i);
            &&& outcome is Skipped <==> skip
            &&& outcome is Unreadable <==> !skip && !readable
            &&& outcome is CallFailed <==> !skip && readable && !dry_run && !kept
            &&& outcome is Embedded <==> !skip && readable && (dry_run || kept)
        }),
{
}

/// The counts are numbers of pages: as many as there are candidates that come
/// to the outcome.
pub proof fn law_counts_are_numbers_of_pages(
    candidates: Seq<CandidateView>,
    already: Set<PageId>,
    dry_run: bool,
    answers: Answers,
    outcome: Outcome,
    n: nat,
)
    ensures
        ({
            let pages = Set::new(
                |i: int|
                    0 <= i < n && outcome_of(candidates, already, dry_run, answers, i) == outcome,
            );
            &&& pages.finite()
            &&& count_of(candidates, already, dry_run, answers, outcome, n) == pages.len()
        }),
    decreases n,
{
    let pages = Set::new(
        |i: int| 0 <= i < n && outcome_of(candidates, already, dry_run, answers, i) == outcome,
    );
    if n == 0 {
        assert(pages =~= Set::empty());
    } else {
        let fewer = (n - 1) as nat;
        let before = Set::new(
            |i: int|
                0 <= i < fewer && outcome_of(candidates, already, dry_run, answers, i) == outcome,
        );
        law_counts_are_numbers_of_pages(candidates, already, dry_run, answers, outcome, fewer);
        if outcome_of(candidates, already, dry_run, answers, n - 1) == outcome {
            assert(pages =~= before.insert(n - 1));
        } else {
            assert(pages =~= before);
        }
    }
}

/// Settling a candidate counts it once, under what became of it, goes on to the
/// next one, and changes nothing else.
pub proof fn law_settling_counts_one_page(progress: Progress, outcome: Outcome)
    ensures
        ({
            let next = progress.settled(outcome);
            let failed = outcome is Unreadable || outcome is CallFailed;
            &&& next.position == progress.position + 1
            &&& next.embedded - progress.embedded == if outcome is Embedded { 1int } else { 0 }
            &&& next.skipped - progress.skipped == if outcome is Skipped { 1int } else { 0 }
            &&& next.failed - progress.failed == if failed { 1int } else { 0 }
            &&& next.calls_failed - progress.calls_failed == if outcome is CallFailed {
                1int
            } else {
                0
            }
            &&& next.embedder == progress.embedder
            &&& next.candidates == progress.candidates
            &&& next.already == progress.already
            &&& next.dry_run == progress.dry_run
        }),
{
}

/// What comes back decides how it goes on: a page that could not be read, a body
/// that could not be embedded and an embedding that could not be stored are
/// failures of that page alone; a body goes on to be embedded and an embedding
/// to be stored as they came; a page whose embedding was stored is embedded.
pub proof fn law_answers_decide_how_it_goes_on(
    progress: Progress,
    body: Seq<char>,
    vector: Seq<u8>,
)
    ensures
        progress.page_read(None) == progress.settled(Outcome::Unreadable).resumed(),
        !progress.dry_run ==> progress.page_read(Some(body)) == StepView::Embed(progress, body),
        progress.dry_run ==> progress.page_read(Some(body)) == progress.settled(
            Outcome::Embedded,
        ).resumed(),
        progress.body_embedded(None) == progress.settled(Outcome::CallFailed).resumed(),
        progress.body_embedded(Some(vector)) == StepView::Store(progress, vector),
        progress.embedding_stored(true) == progress.settled(Outcome::Embedded).resumed(),
        progress.embedding_stored(false) == progress.settled(Outcome::CallFailed).resumed(),
{
}

} // verus!
