use flatten_marker_output::batch::{
    batch_destination, extraction_output_path, is_excluded_path, is_json_input,
    judge_extraction, plan_batch, route, BatchRun, Entry, ProcessError, Route, Step,
};

fn file(path: &str) -> Entry {
    Entry { path: path.to_string(), canonical: Some(path.to_string()), is_dir: false }
}

fn uncanonical(path: &str) -> Entry {
    Entry { path: path.to_string(), canonical: None, is_dir: false }
}

fn destination(r: &Route) -> Option<&str> {
    match r {
        Route::ConvertPdf { destination } => Some(destination.as_str()),
        Route::FlattenJson { destination } => Some(destination.as_str()),
        _ => None,
    }
}

#[test]
fn json_file_is_flattened_into_the_mirrored_place() {
    let r = route(&file("/in/a/b.json"), "/in", "/out");
    assert!(matches!(r, Route::FlattenJson { .. }));
    assert_eq!(destination(&r), Some("/out/a/b_processed.json"));
}

#[test]
fn pdf_file_is_converted() {
    let r = route(&file("/in/x.pdf"), "/in", "/in_processed");
    assert!(matches!(r, Route::ConvertPdf { .. }));
    assert_eq!(destination(&r), Some("/in_processed/x_processed.json"));
}

#[test]
fn other_file_is_unsupported() {
    assert!(matches!(route(&file("/in/notes.txt"), "/in", "/out"), Route::Unsupported));
    assert!(matches!(route(&file("/in/README"), "/in", "/out"), Route::Unsupported));
    assert!(matches!(route(&file("/in/a.PDF"), "/in", "/out"), Route::Unsupported));
    assert!(matches!(route(&file("/in/.json"), "/in", "/out"), Route::Unsupported));
}

#[test]
fn earlier_output_is_skipped() {
    assert!(matches!(route(&file("/in/a_processed.json"), "/in", "/out"), Route::Skip));
    assert!(matches!(route(&file("/in/a_processed.txt"), "/in", "/out"), Route::Skip));
    assert!(matches!(route(&file("/in/a_processed.pdf"), "/in", "/out"), Route::ConvertPdf { .. }));
}

#[test]
fn directories_are_skipped() {
    let e = Entry { path: "/in/sub".to_string(), canonical: Some("/in/sub".to_string()), is_dir: true };
    assert!(matches!(route(&e, "/in", "/out"), Route::Skip));
}

#[test]
fn housekeeping_directories_are_excluded() {
    for p in ["/in/target/debug/a.json", "/in/.git/x.pdf", "/in/target/a.txt", "/in/.git/HEAD"] {
        assert!(is_excluded_path(p, &Some(p.to_string()), "/in"));
        assert!(matches!(route(&file(p), "/in", "/out"), Route::Skip), "{}", p);
    }
    for p in ["/in/targets/a.json", "/in/a/target/b.json", "/in/git/x.pdf", "/in/target.json"] {
        assert!(!is_excluded_path(p, &Some(p.to_string()), "/in"));
        assert!(!matches!(route(&file(p), "/in", "/out"), Route::Skip), "{}", p);
    }
}

#[test]
fn canonical_path_decides_exclusion() {
    let linked = Entry {
        path: "/in/link/a.json".to_string(),
        canonical: Some("/in/target/a.json".to_string()),
        is_dir: false,
    };
    assert!(matches!(route(&linked, "/in", "/out"), Route::Skip));
}

#[test]
fn without_canonical_path_the_text_decides() {
    assert!(is_excluded_path("/in/a/target/b.json", &None, "/in"));
    assert!(is_excluded_path("x/.git/objects/1.json", &None, "/in"));
    assert!(!is_excluded_path("/in/target", &None, "/in"));
    assert!(!is_excluded_path("/in/a.json", &None, "/in"));
    assert!(matches!(route(&uncanonical("/in/a/target/b.json"), "/in", "/out"), Route::Skip));
    assert!(matches!(route(&uncanonical("/in/a.json"), "/in", "/out"), Route::FlattenJson { .. }));
}

#[test]
fn entry_outside_the_root_has_no_destination() {
    assert_eq!(batch_destination("/elsewhere/a.json", "/in", "/out"), None);
    assert!(matches!(route(&file("/elsewhere/a.json"), "/in", "/out"), Route::Skip));
    assert_eq!(batch_destination("/in/d/a.json", "/in", "/out"), Some("/out/d/a_processed.json".to_string()));
}

#[test]
fn plan_runs_pdf_then_json_then_the_rest() {
    let entries = vec![
        file("/in/a.txt"),
        file("/in/b.json"),
        file("/in/c.pdf"),
        file("/in/target/t.json"),
        file("/in/d/e.json"),
        file("/in/d/f.pdf"),
        file("/in/g_processed.json"),
        Entry { path: "/in/d".to_string(), canonical: Some("/in/d".to_string()), is_dir: true },
        file("/in/.git/h.pdf"),
        file("/in/i.md"),
    ];
    let steps = plan_batch(&entries, "/in", "/out");
    let sources: Vec<&str> = steps.iter().map(|s| s.source.as_str()).collect();
    assert_eq!(
        sources,
        vec!["/in/c.pdf", "/in/d/f.pdf", "/in/b.json", "/in/d/e.json", "/in/a.txt", "/in/i.md"]
    );
    assert!(matches!(steps[0].route, Route::ConvertPdf { .. }));
    assert!(matches!(steps[2].route, Route::FlattenJson { .. }));
    assert_eq!(destination(&steps[3].route), Some("/out/d/e_processed.json"));
    assert!(matches!(steps[5].route, Route::Unsupported));
}

#[test]
fn excluded_files_are_never_planned() {
    let entries = vec![
        file("/in/target/a.pdf"),
        file("/in/target/deep/b.json"),
        file("/in/.git/c.json"),
        file("/in/.git/d.txt"),
        uncanonical("/in/x/target/e.pdf"),
    ];
    assert!(plan_batch(&entries, "/in", "/out").is_empty());
}

#[test]
fn one_failure_and_one_success() {
    let entries = vec![file("/in/bad.json"), file("/in/good.json")];
    let steps = plan_batch(&entries, "/in", "/out");
    assert_eq!(steps.len(), 2);
    let mut run = BatchRun::new();
    let failure = ProcessError::Schema {
        path: "\"/in/bad.json\"".to_string(),
        detail: "missing field `children` at line 1 column 2".to_string(),
    };
    run.record(&steps[0], &Some(failure.reason()));
    run.record(&steps[1], &None);
    assert_eq!(run.unprocessed.len(), 1);
    assert_eq!(run.unprocessed[0].path, "/in/bad.json");
    assert_eq!(
        run.unprocessed[0].reason,
        "Invalid JSON schema in \"/in/bad.json\": missing field `children` at line 1 column 2"
    );
    assert_eq!(run.written, vec!["/out/good_processed.json".to_string()]);
}

#[test]
fn failures_do_not_stop_the_run() {
    let entries = vec![file("/in/a.pdf"), file("/in/b.json"), file("/in/c.txt"), file("/in/d.json")];
    let steps = plan_batch(&entries, "/in", "/out");
    let mut run = BatchRun::new();
    run.record(&steps[0], &Some("tool exited with status 1".to_string()));
    run.record(&steps[1], &Some("permission denied".to_string()));
    run.record(&steps[2], &None);
    run.record(&steps[3], &None);
    assert_eq!(steps[3].source, "/in/c.txt");
    let reported: Vec<(&str, &str)> =
        run.unprocessed.iter().map(|u| (u.path.as_str(), u.reason.as_str())).collect();
    assert_eq!(
        reported,
        vec![
            ("/in/a.pdf", "Error processing PDF: tool exited with status 1"),
            ("/in/b.json", "permission denied"),
            ("/in/c.txt", "Unsupported file type"),
        ]
    );
    assert_eq!(run.written, vec!["/out/d_processed.json".to_string()]);
}

#[test]
fn unsupported_step_is_reported_whatever_came_back() {
    let step = Step { source: "/in/a.txt".to_string(), route: Route::Unsupported };
    let mut run = BatchRun::new();
    run.record(&step, &Some("ignored".to_string()));
    assert_eq!(run.unprocessed.len(), 1);
    assert_eq!(run.unprocessed[0].reason, "Unsupported file type");
    assert!(run.written.is_empty());
    let skip = Step { source: "/in/b".to_string(), route: Route::Skip };
    run.record(&skip, &Some("ignored".to_string()));
    assert_eq!(run.unprocessed.len(), 1);
}

#[test]
fn unreadable_entry_is_reported_without_a_path() {
    let mut run = BatchRun::new();
    run.record_unreadable("GlobError { path: \"/in/x\" }");
    assert_eq!(run.unprocessed.len(), 1);
    assert_eq!(run.unprocessed[0].path, "Unknown file");
    assert_eq!(run.unprocessed[0].reason, "Error reading file: GlobError { path: \"/in/x\" }");
}

#[test]
fn error_reasons() {
    assert_eq!(ProcessError::Extraction { detail: "no output file".to_string() }.reason(), "no output file");
    assert_eq!(ProcessError::Io { detail: "disk full".to_string() }.reason(), "disk full");
    assert_eq!(ProcessError::UnsupportedInput.reason(), "Unsupported file type");
    assert_eq!(
        ProcessError::Schema { path: "p".to_string(), detail: "d".to_string() }.reason(),
        "Invalid JSON schema in p: d"
    );
}

#[test]
fn single_input_is_json_by_its_extension() {
    assert!(is_json_input("a.json"));
    assert!(is_json_input("/x/y.tar.json"));
    assert!(!is_json_input("a.pdf"));
    assert!(!is_json_input("a.JSON"));
    assert!(!is_json_input("json"));
    assert!(!is_json_input(".json"));
}

#[test]
fn no_step_writes_over_its_source() {
    let entries = vec![
        file("/in/a.json"),
        file("/in/a.pdf"),
        file("/in/a_processed.pdf"),
        file("/in/d/x.y.json"),
        file("/in/.pdf"),
    ];
    for root in ["/in", "/in/", "/in/d"] {
        for out in ["/in", "/out", "", "/in/d"] {
            let steps = plan_batch(&entries, root, out);
            assert!(steps.len() <= entries.len());
            for step in &steps {
                if let Some(d) = destination(&step.route) {
                    assert_ne!(d, step.source);
                }
            }
        }
    }
}

#[test]
fn extraction_tool_output_is_named_after_the_stem() {
    assert_eq!(extraction_output_path("/in/d/report.pdf", "/tmp/work"), "/tmp/work/report.json");
    assert_eq!(extraction_output_path("a.b.pdf", "w/"), "w/a.b.json");
}

#[test]
fn extraction_counts_only_with_exit_and_file() {
    assert!(judge_extraction(true, true, "").is_ok());
    match judge_extraction(false, true, "boom") {
        Err(ProcessError::Extraction { detail }) => assert_eq!(detail, "Extraction failed: boom"),
        other => panic!("{:?}", other),
    }
    match judge_extraction(false, false, "boom") {
        Err(ProcessError::Extraction { detail }) => assert_eq!(detail, "Extraction failed: boom"),
        other => panic!("{:?}", other),
    }
    match judge_extraction(true, false, "") {
        Err(ProcessError::Extraction { detail }) => assert_eq!(detail, "Extraction left no output file"),
        other => panic!("{:?}", other),
    }
}

#[test]
fn entries_that_end_in_a_dot_component_keep_their_name() {
    assert_eq!(
        batch_destination("/in/d/a.json/.", "/in", "/out"),
        Some("/out/d/a_processed.json".to_string())
    );
    assert_eq!(batch_destination("/in/a.json", "/in/.", "/out/."), Some("/out/a_processed.json".to_string()));
    assert_eq!(extraction_output_path("/in/report.pdf/.", "/tmp/w"), "/tmp/w/report.json");
}
