//! A run over a directory: which of the entries found are worked on, where
//! their output goes, and what is left to report at the end.
//!
//! The walk itself is the caller's. It hands over what it found, is told what
//! to do with each entry, and reports how each step went. One failed step
//! never stops the others.

use vstd::prelude::*;
use vstd::string::*;
use crate::chars::same_text;
use crate::paths::{
    contains_text, extension, extension_of, file_name, file_name_of, file_stem, has_infix,
    input_stem, join, joined, last_dot, lemma_file_name_of_concat, lemma_file_name_of_joined,
    lemma_last_dot, lemma_output_name_differs, lies_under, mirror_path, mirrored, opt_view,
    output_file_name, output_name, parent, parent_of, path_lies_under,
};

verus! {

/// One entry that the walk found below the input root.
#[derive(Debug)]
pub struct Entry {
    /// The path as the walk gave it.
    pub path: String,
    /// Its canonical form, where the file system could give one.
    pub canonical: Option<String>,
    /// Whether it is a directory.
    pub is_dir: bool,
}

/// What an entry holds, as plain values.
pub struct EntryView {
    pub path: Seq<char>,
    pub canonical: Option<Seq<char>>,
    pub is_dir: bool,
}

impl View for Entry {
    type V = EntryView;

    open spec fn view(&self) -> EntryView {
        EntryView { path: self.path@, canonical: opt_view(self.canonical), is_dir: self.is_dir }
    }
}

/// What is done with an entry.
#[derive(Debug)]
pub enum Route {
    /// Nothing, and nothing is reported.
    Skip,
    /// The extraction tool is run on it and its tree is flattened.
    ConvertPdf { destination: String },
    /// Its tree is read and flattened.
    FlattenJson { destination: String },
    /// Nothing, and it is reported as unprocessed.
    Unsupported,
}

/// A route, with its destination as a plain sequence.
pub enum RouteView {
    Skip,
    ConvertPdf { destination: Seq<char> },
    FlattenJson { destination: Seq<char> },
    Unsupported,
}

impl View for Route {
    type V = RouteView;

    open spec fn view(&self) -> RouteView {
        match *self {
            Route::Skip => RouteView::Skip,
            Route::ConvertPdf { destination } => RouteView::ConvertPdf { destination: destination@ },
            Route::FlattenJson { destination } => RouteView::FlattenJson { destination: destination@ },
            Route::Unsupported => RouteView::Unsupported,
        }
    }
}

/// One step of a run: an entry and what is done with it.
#[derive(Debug)]
pub struct Step {
    pub source: String,
    pub route: Route,
}

/// A step, as plain values.
pub struct StepView {
    pub source: Seq<char>,
    pub route: RouteView,
}

impl View for Step {
    type V = StepView;

    open spec fn view(&self) -> StepView {
        StepView { source: self.source@, route: self.route@ }
    }
}

/// A file that a run did not process, and why.
#[derive(Debug)]
pub struct UnprocessedFile {
    pub path: String,
    pub reason: String,
}

/// A record of an unprocessed file, as plain values.
pub struct UnprocessedView {
    pub path: Seq<char>,
    pub reason: Seq<char>,
}

impl View for UnprocessedFile {
    type V = UnprocessedView;

    open spec fn view(&self) -> UnprocessedView {
        UnprocessedView { path: self.path@, reason: self.reason@ }
    }
}

/// The three passes of a run, in their order.
#[derive(Clone, Copy, Debug, PartialEq, Eq, Structural)]
pub enum Pass {
    Pdf,
    Json,
    Other,
}

/// Whether the entry lies in the build or version-control directory of the
/// input root. The canonical path decides where there is one; else the path
/// is searched for the directory names.
pub open spec fn excluded(path: Seq<char>, canonical: Option<Seq<char>>, input_root: Seq<char>) -> bool {
    match canonical {
        Some(c) => lies_under(c, joined(input_root, "target"@)) || lies_under(
            c,
            joined(input_root, ".git"@),
        ),
        None => has_infix(path, "/target/"@) || has_infix(path, "/.git/"@),
    }
}

/// Whether the file's name says that it is output of an earlier run.
pub open spec fn already_processed(path: Seq<char>) -> bool {
    has_infix(file_name(path), "_processed"@)
}

/// The output file of a mirrored path: beside it, with `_processed` after
/// the stem and the extension `json`.
pub open spec fn processed_beside(m: Seq<char>) -> Seq<char> {
    match parent_of(m) {
        Some(d) => joined(d, output_name(m, "json"@)),
        None => output_name(m, "json"@),
    }
}

/// Where the output of an entry goes: its place under the input root,
/// mirrored under the output root, with `_processed` after the stem.
pub open spec fn destination_of(path: Seq<char>, input_root: Seq<char>, output_root: Seq<char>) -> Option<Seq<char>> {
    match mirrored(path, input_root, output_root) {
        Some(m) => Some(processed_beside(m)),
        None => None,
    }
}

/// What is done with an entry.
pub open spec fn route_of(e: EntryView, input_root: Seq<char>, output_root: Seq<char>) -> RouteView {
    let ext = extension_of(file_name(e.path));
    let destination = destination_of(e.path, input_root, output_root);
    if e.is_dir || excluded(e.path, e.canonical, input_root) {
        RouteView::Skip
    } else if ext == Some("pdf"@) {
        match destination {
            Some(d) => RouteView::ConvertPdf { destination: d },
            None => RouteView::Skip,
        }
    } else if already_processed(e.path) {
        RouteView::Skip
    } else if ext == Some("json"@) {
        match destination {
            Some(d) => RouteView::FlattenJson { destination: d },
            None => RouteView::Skip,
        }
    } else {
        RouteView::Unsupported
    }
}

/// Whether a route is worked on in a pass.
pub open spec fn in_pass(r: RouteView, pass: Pass) -> bool {
    match pass {
        Pass::Pdf => r is ConvertPdf,
        Pass::Json => r is FlattenJson,
        Pass::Other => r is Unsupported,
    }
}

/// The steps of one pass: the entries that the pass works on, in the order
/// in which they were found.
pub open spec fn pass_steps(entries: Seq<Entry>, input_root: Seq<char>, output_root: Seq<char>, pass: Pass) -> Seq<StepView>
    decreases entries.len(),
{
    if entries.len() == 0 {
        Seq::empty()
    } else {
        let e = entries.last();
        let r = route_of(e@, input_root, output_root);
        let before = pass_steps(entries.drop_last(), input_root, output_root, pass);
        if in_pass(r, pass) {
            before.push(StepView { source: e.path@, route: r })
        } else {
            before
        }
    }
}

/// The steps of a run: PDF files first, then JSON files, then the files that
/// are neither.
pub open spec fn planned(entries: Seq<Entry>, input_root: Seq<char>, output_root: Seq<char>) -> Seq<StepView> {
    pass_steps(entries, input_root, output_root, Pass::Pdf) + pass_steps(
        entries,
        input_root,
        output_root,
        Pass::Json,
    ) + pass_steps(entries, input_root, output_root, Pass::Other)
}

/// The views of a sequence of steps.
pub open spec fn steps_view(s: Seq<Step>) -> Seq<StepView> {
    s.map_values(|x: Step| x@)
}

/// The views of a sequence of records.
pub open spec fn unprocessed_view(s: Seq<UnprocessedFile>) -> Seq<UnprocessedView> {
    s.map_values(|x: UnprocessedFile| x@)
}

/// The views of a sequence of strings.
pub open spec fn strings_view(s: Seq<String>) -> Seq<Seq<char>> {
    s.map_values(|x: String| x@)
}

/// What a step leaves to report: a file of no supported type always, a
/// failed step with the reason of its failure, a step that went well nothing.
pub open spec fn report_of(step: StepView, failure: Option<Seq<char>>) -> Option<UnprocessedView> {
    match step.route {
        RouteView::Skip => None,
        RouteView::Unsupported => Some(
            UnprocessedView { path: step.source, reason: "Unsupported file type"@ },
        ),
        RouteView::ConvertPdf { destination } => match failure {
            Some(e) => Some(UnprocessedView { path: step.source, reason: "Error processing PDF: "@ + e }),
            None => None,
        },
        RouteView::FlattenJson { destination } => match failure {
            Some(e) => Some(UnprocessedView { path: step.source, reason: e }),
            None => None,
        },
    }
}

/// The output file that a step leaves: its destination, where it is a
/// conversion or a flattening that went well.
pub open spec fn artifact_of(step: StepView, failure: Option<Seq<char>>) -> Option<Seq<char>> {
    match step.route {
        RouteView::ConvertPdf { destination } => if failure is None {
            Some(destination)
        } else {
            None
        },
        RouteView::FlattenJson { destination } => if failure is None {
            Some(destination)
        } else {
            None
        },
        _ => None,
    }
}

/// Whether the entry lies in the build or version-control directory of the
/// input root.
pub fn is_excluded_path(path: &str, canonical: &Option<String>, input_root: &str) -> (r: bool)
    ensures
        r == excluded(path@, opt_view(*canonical), input_root@),
{
    match canonical {
        Some(c) => {
            let target_dir = join(input_root, "target");
            let git_dir = join(input_root, ".git");
            path_lies_under(c.as_str(), target_dir.as_str()) || path_lies_under(
                c.as_str(),
                git_dir.as_str(),
            )
        },
        None => contains_text(path, "/target/") || contains_text(path, "/.git/"),
    }
}

/// Where the output of an entry goes, where the entry lies under the input
/// root.
pub fn batch_destination(path: &str, input_root: &str, output_root: &str) -> (r: Option<String>)
    ensures
        opt_view(r) == destination_of(path@, input_root@, output_root@),
{
    match mirror_path(path, input_root, output_root) {
        Some(m) => {
            let name = output_file_name(m.as_str(), "json");
            match parent(m.as_str()) {
                Some(d) => Some(join(d.as_str(), name.as_str())),
                None => Some(name),
            }
        },
        None => None,
    }
}

fn has_extension(ext: &Option<String>, wanted: &str) -> (r: bool)
    ensures
        r == (opt_view(*ext) == Some(wanted@)),
{
    match ext {
        Some(e) => same_text(e.as_str(), wanted),
        None => false,
    }
}

/// Decides what is done with one entry.
pub fn route(entry: &Entry, input_root: &str, output_root: &str) -> (r: Route)
    ensures
        r@ == route_of(entry@, input_root@, output_root@),
        excluded(entry.path@, opt_view(entry.canonical), input_root@) ==> r is Skip,
        writes_beside_source(r@, entry.path@),
{
    proof {
        lemma_route_spares_source(entry@, input_root@, output_root@);
    }
    if entry.is_dir || is_excluded_path(entry.path.as_str(), &entry.canonical, input_root) {
        return Route::Skip;
    }
    let ext = extension(entry.path.as_str());
    if has_extension(&ext, "pdf") {
        return match batch_destination(entry.path.as_str(), input_root, output_root) {
            Some(d) => Route::ConvertPdf { destination: d },
            None => Route::Skip,
        };
    }
    let name = file_name_of(entry.path.as_str());
    if contains_text(name.as_str(), "_processed") {
        return Route::Skip;
    }
    if has_extension(&ext, "json") {
        return match batch_destination(entry.path.as_str(), input_root, output_root) {
            Some(d) => Route::FlattenJson { destination: d },
            None => Route::Skip,
        };
    }
    Route::Unsupported
}

fn is_in_pass(r: &Route, pass: Pass) -> (b: bool)
    ensures
        b == in_pass(r@, pass),
{
    match pass {
        Pass::Pdf => matches!(r, Route::ConvertPdf { .. }),
        Pass::Json => matches!(r, Route::FlattenJson { .. }),
        Pass::Other => matches!(r, Route::Unsupported),
    }
}

fn plan_pass(entries: &Vec<Entry>, input_root: &str, output_root: &str, pass: Pass, steps: &mut Vec<Step>)
    ensures
        steps_view(final(steps)@) == steps_view(old(steps)@) + pass_steps(
            entries@,
            input_root@,
            output_root@,
            pass,
        ),
{
    let ghost start = steps_view(steps@);
    let mut i: usize = 0;
    proof {
        assert(entries@.take(0) =~= Seq::<Entry>::empty());
        assert(start + Seq::<StepView>::empty() =~= start);
    }
    while i < entries.len()
        invariant
            i <= entries@.len(),
            steps_view(steps@) == start + pass_steps(
                entries@.take(i as int),
                input_root@,
                output_root@,
                pass,
            ),
        decreases entries.len() - i,
    {
        let e = &entries[i];
        let r = route(e, input_root, output_root);
        let ghost before = pass_steps(entries@.take(i as int), input_root@, output_root@, pass);
        proof {
            assert(entries@.take(i as int + 1).drop_last() =~= entries@.take(i as int));
            assert(entries@.take(i as int + 1).last() == *e);
        }
        if is_in_pass(&r, pass) {
            let step = Step { source: e.path.clone(), route: r };
            steps.push(step);
            proof {
                assert(steps_view(steps@) =~= (start + before).push(step@));
                assert((start + before).push(step@) =~= start + before.push(step@));
            }
        }
        i += 1;
    }
    proof {
        assert(entries@.take(entries.len() as int) =~= entries@);
    }
}

/// Plans a run over the entries that the walk found: one step for each entry
/// that is worked on or reported, none for the others.
pub fn plan_batch(entries: &Vec<Entry>, input_root: &str, output_root: &str) -> (steps: Vec<Step>)
    ensures
        steps_view(steps@) == planned(entries@, input_root@, output_root@),
        steps@.len() == attempted(entries@, input_root@, output_root@),
        steps@.len() <= entries@.len(),
{
    proof {
        lemma_one_step_each(entries@, input_root@, output_root@);
    }
    let mut steps: Vec<Step> = Vec::new();
    plan_pass(entries, input_root, output_root, Pass::Pdf, &mut steps);
    plan_pass(entries, input_root, output_root, Pass::Json, &mut steps);
    plan_pass(entries, input_root, output_root, Pass::Other, &mut steps);
    proof {
        assert(steps_view(Seq::<Step>::empty()) + pass_steps(
            entries@,
            input_root@,
            output_root@,
            Pass::Pdf,
        ) =~= pass_steps(entries@, input_root@, output_root@, Pass::Pdf));
    }
    steps
}

/// The state of a run: what is left to report and what was written.
#[derive(Debug)]
pub struct BatchRun {
    pub unprocessed: Vec<UnprocessedFile>,
    pub written: Vec<String>,
}

impl BatchRun {
    /// A run in which nothing has happened yet.
    pub fn new() -> (run: BatchRun)
        ensures
            run.unprocessed@.len() == 0,
            run.written@.len() == 0,
    {
        BatchRun { unprocessed: Vec::new(), written: Vec::new() }
    }

    /// Takes note of how a step went: `failure` holds the reason where it
    /// failed. The run goes on either way.
    pub fn record(&mut self, step: &Step, failure: &Option<String>)
        ensures
            unprocessed_view(final(self).unprocessed@) == unprocessed_view(old(self).unprocessed@)
                + (match report_of(step@, opt_view(*failure)) {
                Some(r) => seq![r],
                None => Seq::empty(),
            }),
            strings_view(final(self).written@) == strings_view(old(self).written@) + (
            match artifact_of(step@, opt_view(*failure)) {
                Some(d) => seq![d],
                None => Seq::empty(),
            }),
    {
        let ghost reports = unprocessed_view(self.unprocessed@);
        let ghost artifacts = strings_view(self.written@);
        proof {
            assert(reports + Seq::<UnprocessedView>::empty() =~= reports);
            assert(artifacts + Seq::<Seq<char>>::empty() =~= artifacts);
        }
        match &step.route {
            Route::Skip => {},
            Route::Unsupported => {
                let rec = UnprocessedFile {
                    path: step.source.clone(),
                    reason: "Unsupported file type".to_owned(),
                };
                self.unprocessed.push(rec);
                proof {
                    assert(unprocessed_view(self.unprocessed@) =~= reports + seq![rec@]);
                }
            },
            Route::ConvertPdf { destination } => {
                match failure {
                    Some(e) => {
                        let mut reason = "Error processing PDF: ".to_owned();
                        reason.append(e.as_str());
                        let rec = UnprocessedFile { path: step.source.clone(), reason };
                        self.unprocessed.push(rec);
                        proof {
                            assert(unprocessed_view(self.unprocessed@) =~= reports + seq![rec@]);
                        }
                    },
                    None => {
                        let d = destination.clone();
                        self.written.push(d);
                        proof {
                            assert(strings_view(self.written@) =~= artifacts + seq![d@]);
                        }
                    },
                }
            },
            Route::FlattenJson { destination } => {
                match failure {
                    Some(e) => {
                        let rec = UnprocessedFile { path: step.source.clone(), reason: e.clone() };
                        self.unprocessed.push(rec);
                        proof {
                            assert(unprocessed_view(self.unprocessed@) =~= reports + seq![rec@]);
                        }
                    },
                    None => {
                        let d = destination.clone();
                        self.written.push(d);
                        proof {
                            assert(strings_view(self.written@) =~= artifacts + seq![d@]);
                        }
                    },
                }
            },
        }
    }

    /// Takes note of an entry that the walk could not read. Its path is not
    /// known.
    pub fn record_unreadable(&mut self, detail: &str)
        ensures
            unprocessed_view(final(self).unprocessed@) == unprocessed_view(old(self).unprocessed@).push(
                UnprocessedView { path: "Unknown file"@, reason: "Error reading file: "@ + detail@ },
            ),
            final(self).written == old(self).written,
    {
        let mut reason = "Error reading file: ".to_owned();
        reason.append(detail);
        let rec = UnprocessedFile { path: "Unknown file".to_owned(), reason };
        self.unprocessed.push(rec);
        proof {
            assert(unprocessed_view(self.unprocessed@) =~= unprocessed_view(old(self).unprocessed@).push(rec@));
        }
    }
}

/// Why a single file could not be processed.
#[derive(Debug)]
pub enum ProcessError {
    /// The file does not hold a tree of blocks.
    Schema { path: String, detail: String },
    /// The extraction tool failed or left no output.
    Extraction { detail: String },
    /// Reading, writing or making a directory failed.
    Io { detail: String },
    /// The file is neither a PDF nor a JSON file.
    UnsupportedInput,
}

/// The reason that is reported for an error.
pub open spec fn reason_of(e: ProcessError) -> Seq<char> {
    match e {
        ProcessError::Schema { path, detail } => "Invalid JSON schema in "@ + path@ + ": "@ + detail@,
        ProcessError::Extraction { detail } => detail@,
        ProcessError::Io { detail } => detail@,
        ProcessError::UnsupportedInput => "Unsupported file type"@,
    }
}

impl ProcessError {
    /// The reason that is reported for this error.
    pub fn reason(&self) -> (r: String)
        ensures
            r@ == reason_of(*self),
    {
        match self {
            ProcessError::Schema { path, detail } => {
                let mut r = "Invalid JSON schema in ".to_owned();
                r.append(path.as_str());
                r.append(": ");
                r.append(detail.as_str());
                r
            },
            ProcessError::Extraction { detail } => detail.clone(),
            ProcessError::Io { detail } => detail.clone(),
            ProcessError::UnsupportedInput => "Unsupported file type".to_owned(),
        }
    }
}

/// The file that the extraction tool leaves for `input_path` in `work_dir`:
/// the stem of the input with the extension `json`.
pub open spec fn tool_output(input_path: Seq<char>, work_dir: Seq<char>) -> Seq<char> {
    joined(work_dir, input_stem(input_path) + ".json"@)
}

/// The file that the extraction tool is expected to write.
pub fn extraction_output_path(input_path: &str, work_dir: &str) -> (r: String)
    ensures
        r@ == tool_output(input_path@, work_dir@),
{
    let mut name = file_stem(input_path);
    name.append(".json");
    join(work_dir, name.as_str())
}

/// Why a run of the extraction tool counts as failed, if it does: it ended
/// with an error, of which `diagnostic` is what it said, or it left no file.
pub open spec fn extraction_failure(exited_ok: bool, wrote_file: bool, diagnostic: Seq<char>) -> Option<Seq<char>> {
    if !exited_ok {
        Some("Extraction failed: "@ + diagnostic)
    } else if !wrote_file {
        Some("Extraction left no output file"@)
    } else {
        None
    }
}

/// Judges a run of the extraction tool. It went well only if the tool ended
/// without error and its output file is there.
pub fn judge_extraction(exited_ok: bool, wrote_file: bool, diagnostic: &str) -> (r: Result<(), ProcessError>)
    ensures
        r is Ok <==> exited_ok && wrote_file,
        match r {
            Ok(_) => extraction_failure(exited_ok, wrote_file, diagnostic@) is None,
            Err(e) => e is Extraction && extraction_failure(exited_ok, wrote_file, diagnostic@)
                == Some(reason_of(e)),
        },
{
    if !exited_ok {
        let mut detail = "Extraction failed: ".to_owned();
        detail.append(diagnostic);
        Err(ProcessError::Extraction { detail })
    } else if !wrote_file {
        Err(ProcessError::Extraction { detail: "Extraction left no output file".to_owned() })
    } else {
        Ok(())
    }
}

/// Whether a single input file is read as a tree of blocks: its extension is
/// `json`. Every other file goes to the extraction tool.
pub fn is_json_input(path: &str) -> (r: bool)
    ensures
        r == (extension_of(file_name(path@)) == Some("json"@)),
{
    let ext = extension(path);
    has_extension(&ext, "json")
}

/// Whether a route leaves its source alone: it writes nothing, or writes to
/// another path than `source`.
pub open spec fn writes_beside_source(r: RouteView, source: Seq<char>) -> bool {
    match r {
        RouteView::ConvertPdf { destination } => destination != source,
        RouteView::FlattenJson { destination } => destination != source,
        _ => true,
    }
}

/// The file name of a destination is the output name of the mirrored path.
proof fn lemma_destination_name(m: Seq<char>)
    ensures
        file_name(processed_beside(m)) == output_name(m, "json"@),
        output_name(m, "json"@) == input_stem(m) + "_processed."@ + "json"@,
{
    reveal_strlit("json");
    reveal_strlit("_processed.");
    let ext = "json"@;
    let name = output_name(m, ext);
    assert(!ext.contains('/'));
    lemma_output_name_differs(m, ext);
    assert(name.len() >= 15);
    match parent_of(m) {
        Some(d) => {
            lemma_file_name_of_joined(d, name);
        },
        None => {
            assert(Seq::<char>::empty() + name =~= name);
            lemma_file_name_of_concat(Seq::<char>::empty(), name);
        },
    }
}

/// No step of a run writes over the file it reads: the destination of a
/// conversion ends in `json` where the source ends in `pdf`, and the
/// destination of a flattening has `_processed` in its name where the source
/// has not.
pub proof fn lemma_route_spares_source(e: EntryView, input_root: Seq<char>, output_root: Seq<char>)
    ensures
        writes_beside_source(route_of(e, input_root, output_root), e.path),
{
    reveal_strlit("json");
    reveal_strlit("pdf");
    reveal_strlit("_processed.");
    reveal_strlit("_processed");
    let r = route_of(e, input_root, output_root);
    match mirrored(e.path, input_root, output_root) {
        Some(m) => {
            let d = processed_beside(m);
            let name = output_name(m, "json"@);
            let stem = input_stem(m);
            lemma_destination_name(m);
            assert(name.len() == stem.len() + 15);
            if r is ConvertPdf {
                let n = file_name(e.path);
                lemma_last_dot(n);
                assert(n.skip(last_dot(n) + 1) == "pdf"@);
                assert(n.skip(last_dot(n) + 1).len() == 3);
                assert(n.last() == n.skip(last_dot(n) + 1)[2]);
                assert(name.last() == "json"@[3]);
            } else if r is FlattenJson {
                assert(name.subrange(stem.len() as int, stem.len() as int + 10) =~= "_processed"@);
                assert(has_infix(name, "_processed"@));
            }
        },
        None => {},
    }
}

/// The number of entries that a run works on or reports: those whose route
/// is not `Skip`.
pub open spec fn attempted(entries: Seq<Entry>, input_root: Seq<char>, output_root: Seq<char>) -> nat
    decreases entries.len(),
{
    if entries.len() == 0 {
        0
    } else {
        attempted(entries.drop_last(), input_root, output_root) + (if route_of(
            entries.last()@,
            input_root,
            output_root,
        ) is Skip {
            0nat
        } else {
            1nat
        })
    }
}

/// Every entry that is not skipped gives one step, and no entry gives more:
/// a run has as many steps as it has such entries.
pub proof fn lemma_one_step_each(entries: Seq<Entry>, input_root: Seq<char>, output_root: Seq<char>)
    ensures
        planned(entries, input_root, output_root).len() == attempted(entries, input_root, output_root),
        attempted(entries, input_root, output_root) <= entries.len(),
    decreases entries.len(),
{
    if entries.len() > 0 {
        lemma_one_step_each(entries.drop_last(), input_root, output_root);
    }
}

/// No step of a run stands for an excluded entry or for a directory, and no
/// step writes over its source.
pub proof fn lemma_plan_spares_excluded(entries: Seq<Entry>, input_root: Seq<char>, output_root: Seq<char>)
    ensures
        forall|i: int|
            0 <= i < planned(entries, input_root, output_root).len() ==> exists|j: int|
                0 <= j < entries.len() && !entries[j].is_dir && !excluded(
                    entries[j].path@,
                    opt_view(entries[j].canonical),
                    input_root,
                ) && (#[trigger] planned(entries, input_root, output_root)[i]) == (StepView {
                    source: entries[j].path@,
                    route: route_of(entries[j]@, input_root, output_root),
                }),
        forall|i: int|
            0 <= i < planned(entries, input_root, output_root).len() ==> writes_beside_source(
                (#[trigger] planned(entries, input_root, output_root)[i]).route,
                planned(entries, input_root, output_root)[i].source,
            ),
{
    let a = pass_steps(entries, input_root, output_root, Pass::Pdf);
    let b = pass_steps(entries, input_root, output_root, Pass::Json);
    let c = pass_steps(entries, input_root, output_root, Pass::Other);
    let all = planned(entries, input_root, output_root);
    lemma_steps_are_not_excluded(entries, input_root, output_root, Pass::Pdf);
    lemma_steps_are_not_excluded(entries, input_root, output_root, Pass::Json);
    lemma_steps_are_not_excluded(entries, input_root, output_root, Pass::Other);
    assert forall|i: int| 0 <= i < all.len() implies exists|j: int|
        0 <= j < entries.len() && !entries[j].is_dir && !excluded(
            entries[j].path@,
            opt_view(entries[j].canonical),
            input_root,
        ) && (#[trigger] all[i]) == (StepView {
            source: entries[j].path@,
            route: route_of(entries[j]@, input_root, output_root),
        }) by {
        if i < a.len() {
            assert(all[i] == a[i]);
        } else if i < a.len() + b.len() {
            assert(all[i] == b[i - a.len()]);
        } else {
            assert(all[i] == c[i - a.len() - b.len()]);
        }
    }
    assert forall|i: int| 0 <= i < all.len() implies writes_beside_source(
        (#[trigger] all[i]).route,
        all[i].source,
    ) by {
        let j = choose|j: int|
            0 <= j < entries.len() && all[i] == (StepView {
                source: entries[j].path@,
                route: route_of(entries[j]@, input_root, output_root),
            });
        lemma_route_spares_source(entries[j]@, input_root, output_root);
    }
}

/// An entry in the build or version-control directory of the input root
/// gives no step: each step of a run stands for an entry that is a file and
/// is not excluded.
pub proof fn lemma_steps_are_not_excluded(entries: Seq<Entry>, input_root: Seq<char>, output_root: Seq<char>, pass: Pass)
    ensures
        pass_steps(entries, input_root, output_root, pass).len() <= entries.len(),
        forall|i: int|
            0 <= i < pass_steps(entries, input_root, output_root, pass).len() ==> exists|j: int|
                0 <= j < entries.len() && !entries[j].is_dir && !excluded(
                    entries[j].path@,
                    opt_view(entries[j].canonical),
                    input_root,
                ) && (#[trigger] pass_steps(entries, input_root, output_root, pass)[i]) == (StepView {
                    source: entries[j].path@,
                    route: route_of(entries[j]@, input_root, output_root),
                }),
    decreases entries.len(),
{
    let steps = pass_steps(entries, input_root, output_root, pass);
    if entries.len() > 0 {
        let rest = entries.drop_last();
        let before = pass_steps(rest, input_root, output_root, pass);
        lemma_steps_are_not_excluded(rest, input_root, output_root, pass);
        assert forall|i: int| 0 <= i < steps.len() implies exists|j: int|
            0 <= j < entries.len() && !entries[j].is_dir && !excluded(
                entries[j].path@,
                opt_view(entries[j].canonical),
                input_root,
            ) && (#[trigger] steps[i]) == (StepView {
                source: entries[j].path@,
                route: route_of(entries[j]@, input_root, output_root),
            }) by {
            if i < before.len() {
                assert(steps[i] == before[i]);
                let j = choose|j: int|
                    0 <= j < rest.len() && !rest[j].is_dir && !excluded(
                        rest[j].path@,
                        opt_view(rest[j].canonical),
                        input_root,
                    ) && before[i] == (StepView {
                        source: rest[j].path@,
                        route: route_of(rest[j]@, input_root, output_root),
                    });
                assert(entries[j] == rest[j]);
            } else {
                let j = entries.len() - 1;
                assert(steps[i] == (StepView {
                    source: entries[j].path@,
                    route: route_of(entries[j]@, input_root, output_root),
                }));
            }
        }
    }
}

} // verus!
