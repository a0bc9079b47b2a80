use flatten_marker_output::paths::{
    contains_text, default_output_root, determine_output_path, extension, file_name_of, file_stem,
    join, mirror_path, output_file_name, parent, path_lies_under,
};
use std::path::Path;

const PATHS: [&str; 40] = [
    "a.json",
    "d/a.json",
    "/a.json",
    "/x/y/report.pdf",
    "./a.json",
    "d/.",
    "d/./",
    "a.json/.",
    "x/d/.",
    "x/./d",
    "x//d",
    "x/d//",
    "x/d/././/",
    "//a",
    "/./a",
    "",
    "/",
    "//",
    "/.",
    ".",
    "./",
    "./.",
    "..",
    "../",
    "d/..",
    "/..",
    "../a.b",
    "d/.hidden",
    "d/.hidden.json",
    "d/a.tar.gz",
    "d/noext",
    "d/trailing.",
    "d/...",
    "d/..a",
    "d.x/noext",
    "a_processed.json",
    "out/a_processed.json",
    "output_processed.json",
    "docs",
    "data/docs/",
];

fn std_stem(input: &str) -> String {
    Path::new(input).file_stem().and_then(|n| n.to_str()).unwrap_or("output").to_string()
}

fn std_output_path(input: &str, output_dir: &Option<String>, extension: &str) -> String {
    let name = format!("{}_processed.{}", std_stem(input), extension);
    let joined = match output_dir {
        Some(dir) => Path::new(dir).join(name),
        None => Path::new(input).parent().unwrap_or_else(|| Path::new(".")).join(name),
    };
    joined.to_string_lossy().to_string()
}

fn std_default_root(input: &str) -> String {
    let path = Path::new(input);
    let name = path.file_name().and_then(|n| n.to_str()).unwrap_or("output");
    let parent = path.parent().unwrap_or_else(|| Path::new("."));
    parent.join(format!("{}_processed", name)).to_string_lossy().to_string()
}

fn beside(input: &str) -> String {
    determine_output_path(input, &None, "json")
}

fn under(input: &str, dir: &str) -> String {
    determine_output_path(input, &Some(dir.to_string()), "json")
}

#[test]
fn output_goes_beside_the_input() {
    assert_eq!(beside("docs/a.json"), "docs/a_processed.json");
    assert_eq!(beside("a.json"), "a_processed.json");
    assert_eq!(beside("/a.json"), "/a_processed.json");
    assert_eq!(beside("/x/y/report.pdf"), "/x/y/report_processed.json");
    assert_eq!(beside("./a.json"), "./a_processed.json");
}

#[test]
fn output_goes_under_the_given_directory() {
    assert_eq!(under("docs/a.json", "out"), "out/a_processed.json");
    assert_eq!(under("docs/a.json", "out/"), "out/a_processed.json");
    assert_eq!(under("docs/a.json", "/tmp/x"), "/tmp/x/a_processed.json");
    assert_eq!(under("docs/a.json", ""), "a_processed.json");
    assert_eq!(under("docs/a.json", "/"), "/a_processed.json");
}

#[test]
fn extension_is_taken_from_the_argument() {
    assert_eq!(determine_output_path("a.pdf", &None, "txt"), "a_processed.txt");
    assert_eq!(determine_output_path("a.pdf", &None, ""), "a_processed.");
}

#[test]
fn stem_rules() {
    assert_eq!(file_stem("a.json"), "a");
    assert_eq!(file_stem("d/a.tar.gz"), "a.tar");
    assert_eq!(file_stem("d/noext"), "noext");
    assert_eq!(file_stem("d/.hidden"), ".hidden");
    assert_eq!(file_stem("d/.hidden.json"), ".hidden");
    assert_eq!(file_stem("d/trailing."), "trailing");
    assert_eq!(file_stem("d/sub/"), "sub");
    assert_eq!(file_stem(""), "output");
    assert_eq!(file_stem("/"), "output");
    assert_eq!(file_stem(".."), "output");
    assert_eq!(file_stem("d/.."), "output");
    assert_eq!(file_stem("."), "output");
}

#[test]
fn extension_rules() {
    assert_eq!(extension("a.json"), Some("json".to_string()));
    assert_eq!(extension("d.x/a.tar.gz"), Some("gz".to_string()));
    assert_eq!(extension("d.x/noext"), None);
    assert_eq!(extension(".hidden"), None);
    assert_eq!(extension("a."), Some(String::new()));
    assert_eq!(extension("a.PDF"), Some("PDF".to_string()));
    assert_eq!(extension(""), None);
}

#[test]
fn file_name_is_the_last_component() {
    assert_eq!(file_name_of("a/b/c.txt"), "c.txt");
    assert_eq!(file_name_of("c.txt"), "c.txt");
    assert_eq!(file_name_of("a/b/"), "b");
    assert_eq!(file_name_of("a/b///"), "b");
    assert_eq!(file_name_of("/"), "");
    assert_eq!(file_name_of(""), "");
}

#[test]
fn names_without_a_file_fall_back() {
    assert_eq!(beside(""), "./output_processed.json");
    assert_eq!(beside("/"), "./output_processed.json");
    assert_eq!(beside("."), "output_processed.json");
    assert_eq!(beside(".."), "output_processed.json");
    assert_eq!(beside("d/.."), "d/output_processed.json");
    assert_eq!(under("..", "out"), "out/output_processed.json");
}

#[test]
fn output_is_never_the_input() {
    let inputs = [
        "a.json",
        "a_processed.json",
        "d/a_processed.json",
        "out/a_processed.json",
        "output_processed.json",
        "out/output_processed.json",
        "",
        "..",
        "/",
        "a",
        "_processed.json",
        "d/_processed.json/",
    ];
    for input in inputs {
        assert_ne!(beside(input), input);
        assert_ne!(under(input, "out"), input);
        assert_ne!(under(input, "d"), input);
        assert_ne!(under(input, ""), input);
    }
    assert_eq!(under("out/a_processed.json", "out"), "out/a_processed_processed.json");
}

#[test]
fn join_puts_one_separator() {
    assert_eq!(join("a", "b"), "a/b");
    assert_eq!(join("a/", "b"), "a/b");
    assert_eq!(join("", "b"), "b");
    assert_eq!(join("a", ""), "a/");
    assert_eq!(join("a", "/b"), "/b");
    assert_eq!(join("/", "b"), "/b");
    assert_eq!(join("a", "b/c.json"), "a/b/c.json");
}

#[test]
fn join_agrees_with_the_standard_library() {
    for (dir, rest) in [("a", "b"), ("a/", "b"), ("", "b"), ("a", "/b"), ("/", "b"), ("a/b", "c/d.e")] {
        let expected = std::path::Path::new(dir).join(rest);
        assert_eq!(join(dir, rest), expected.to_string_lossy());
    }
}

#[test]
fn stem_and_extension_agree_with_the_standard_library() {
    for p in ["a.json", "d/a.tar.gz", "d/noext", "d/.hidden", "d/.hidden.json", "d/sub/", "x/y.z/w"] {
        let path = std::path::Path::new(p);
        let stem = path.file_stem().and_then(|s| s.to_str()).unwrap_or("output");
        assert_eq!(file_stem(p), stem);
        let ext = path.extension().and_then(|s| s.to_str()).map(|s| s.to_string());
        assert_eq!(extension(p), ext);
    }
}

#[test]
fn paths_lie_under_whole_components() {
    assert!(path_lies_under("/r/target/x.pdf", "/r/target"));
    assert!(path_lies_under("/r/target", "/r/target"));
    assert!(path_lies_under("/r/target/x.pdf", "/r/target/"));
    assert!(!path_lies_under("/r/targets/x.pdf", "/r/target"));
    assert!(!path_lies_under("/r/tar", "/r/target"));
    assert!(!path_lies_under("/q/target/x.pdf", "/r/target"));
    assert!(path_lies_under("/r/.git/config", "/r/.git"));
}

#[test]
fn mirror_keeps_the_relative_place() {
    assert_eq!(mirror_path("/in/a/b.json", "/in", "out"), Some("out/a/b.json".to_string()));
    assert_eq!(mirror_path("/in/b.json", "/in/", "/o/"), Some("/o/b.json".to_string()));
    assert_eq!(mirror_path("/in//b.json", "/in", "o"), Some("o/b.json".to_string()));
    assert_eq!(mirror_path("/other/b.json", "/in", "out"), None);
    assert_eq!(mirror_path("/inside/b.json", "/in", "out"), None);
}

#[test]
fn default_root_is_a_sibling() {
    assert_eq!(default_output_root("data/docs"), "data/docs_processed");
    assert_eq!(default_output_root("docs"), "docs_processed");
    assert_eq!(default_output_root("docs/"), "docs_processed");
    assert_eq!(default_output_root("/srv/docs"), "/srv/docs_processed");
    assert_eq!(default_output_root(""), "./output_processed");
    assert_eq!(default_output_root("docs/."), "docs_processed");
    assert_eq!(default_output_root("data/docs/./"), "data/docs_processed");
}

#[test]
fn text_search() {
    assert!(contains_text("a/target/b", "/target/"));
    assert!(!contains_text("a/target", "/target/"));
    assert!(contains_text("x_processed.json", "_processed"));
    assert!(!contains_text("x_process.json", "_processed"));
    assert!(contains_text("abc", ""));
    assert!(contains_text("", ""));
    assert!(!contains_text("", "a"));
    assert!(contains_text("aab", "ab"));
}

#[test]
fn final_dot_components_do_not_count() {
    assert_eq!(file_name_of("foo/."), "foo");
    assert_eq!(file_name_of("foo/./"), "foo");
    assert_eq!(file_name_of("a/foo/././/"), "foo");
    assert_eq!(file_stem("foo/."), "foo");
    assert_eq!(file_stem("a.json/."), "a");
    assert_eq!(extension("a.json/."), Some("json".to_string()));
    assert_eq!(parent("foo/."), Some(String::new()));
    assert_eq!(parent("x/foo/."), Some("x".to_string()));
    assert_eq!(beside("foo/."), "foo_processed.json");
    assert_eq!(beside("x/foo/./"), "x/foo_processed.json");
    assert_eq!(under("foo/.", "out"), "out/foo_processed.json");
    assert_eq!(default_output_root("foo/."), "foo_processed");
}

#[test]
fn dot_names_have_no_stem_and_no_extension() {
    assert_eq!(extension(".."), None);
    assert_eq!(extension("d/.."), None);
    assert_eq!(extension("."), None);
    assert_eq!(file_stem("d/.."), "output");
    assert_eq!(extension("d/..."), Some(String::new()));
    assert_eq!(file_stem("d/..."), "..");
}

#[test]
fn parent_rules() {
    assert_eq!(parent("a"), Some(String::new()));
    assert_eq!(parent("a/b"), Some("a".to_string()));
    assert_eq!(parent("/a"), Some("/".to_string()));
    assert_eq!(parent("//a"), Some("/".to_string()));
    assert_eq!(parent("a//b/"), Some("a".to_string()));
    assert_eq!(parent("a/./b"), Some("a".to_string()));
    assert_eq!(parent("./b"), Some(".".to_string()));
    assert_eq!(parent("a/.."), Some("a".to_string()));
    assert_eq!(parent("."), Some(String::new()));
    assert_eq!(parent(""), None);
    assert_eq!(parent("/"), None);
    assert_eq!(parent("/."), None);
}

#[test]
fn parent_agrees_with_the_standard_library() {
    for p in PATHS {
        let expected = Path::new(p).parent().map(|d| d.to_string_lossy().to_string());
        assert_eq!(parent(p), expected, "{:?}", p);
    }
}

#[test]
fn stem_extension_and_name_agree_with_the_standard_library_on_every_shape() {
    for p in PATHS {
        let path = Path::new(p);
        assert_eq!(file_stem(p), std_stem(p), "{:?}", p);
        let ext = path.extension().and_then(|s| s.to_str()).map(|s| s.to_string());
        assert_eq!(extension(p), ext, "{:?}", p);
        let name = path.file_name().and_then(|s| s.to_str()).unwrap_or("").to_string();
        let ours = file_name_of(p);
        if ours == "." || ours == ".." {
            assert_eq!(name, "", "{:?}", p);
        } else {
            assert_eq!(ours, name, "{:?}", p);
        }
    }
}

#[test]
fn output_path_agrees_with_the_standard_library() {
    let dirs = [None, Some("out".to_string()), Some("out/".to_string()), Some(String::new()), Some("/".to_string()), Some("d/.".to_string())];
    for p in PATHS {
        for dir in &dirs {
            for ext in ["json", "txt", ""] {
                assert_eq!(
                    determine_output_path(p, dir, ext),
                    std_output_path(p, dir, ext),
                    "{:?} {:?} {:?}",
                    p,
                    dir,
                    ext
                );
            }
        }
        assert_eq!(output_file_name(p, "json"), format!("{}_processed.json", std_stem(p)));
    }
}

#[test]
fn default_root_agrees_with_the_standard_library() {
    for p in PATHS {
        assert_eq!(default_output_root(p), std_default_root(p), "{:?}", p);
        assert_ne!(default_output_root(p), p);
    }
}

#[test]
fn output_is_never_the_input_on_every_shape() {
    for p in PATHS {
        for dir in [None, Some("out".to_string()), Some(String::new()), Some("d".to_string())] {
            assert_ne!(determine_output_path(p, &dir, "json"), p);
        }
    }
}

const BASES: [&str; 20] = [
    "/in",
    "/in/",
    "/in/.",
    "/",
    "",
    "in",
    "in/x",
    ".",
    "/in/x",
    "/in/target",
    "/i",
    "/in/a.json",
    "//in//x/",
    "/./in",
    "./a",
    "./",
    "..",
    "/in/..",
    "a",
    "/in/.hidden",
];

const BELOW: [&str; 30] = [
    "/in/x//a.json",
    "/in/./x/./a.json/",
    "//in/x",
    "./a/b",
    "././a",
    "../a",
    "/in/../a",
    "a/./b/",
    "/in/a.json",
    "/in/x/a.json",
    "/in//a.json",
    "/in/./a.json",
    "/in/x/",
    "/in/x/.",
    "/in",
    "/in/",
    "/in/.",
    "/inside/a.json",
    "/other/a.json",
    "/in/target/debug/a",
    "/in/targets/a",
    "/in/../a",
    "in/x/a",
    "in/x",
    "./a",
    "a",
    "/",
    "",
    ".",
    "/in/.hidden",
];

#[test]
fn lying_under_agrees_with_the_standard_library() {
    for base in BASES {
        for path in BELOW {
            assert_eq!(
                path_lies_under(path, base),
                Path::new(path).starts_with(base),
                "{:?} under {:?}",
                path,
                base
            );
        }
    }
}

#[test]
fn mirroring_agrees_with_the_standard_library() {
    for base in BASES {
        for path in BELOW {
            for out in ["out", "/o/", ""] {
                let expected = Path::new(path)
                    .strip_prefix(base)
                    .ok()
                    .map(|r| Path::new(out).join(r).to_string_lossy().to_string());
                assert_eq!(
                    mirror_path(path, base, out),
                    expected,
                    "{:?} from {:?} to {:?}",
                    path,
                    base,
                    out
                );
            }
        }
    }
}

#[test]
fn empty_and_dot_components_do_not_count_in_a_comparison() {
    assert!(path_lies_under("/in//a.json", "/in"));
    assert!(path_lies_under("/in/./a.json", "/in"));
    assert!(path_lies_under("/in//a.json", "/in/a.json"));
    assert!(path_lies_under("/in/./x//a.json", "/in//x/."));
    assert!(!path_lies_under("/in/xa.json", "/in/x"));
    assert!(!path_lies_under("./in/a", "in"));
    assert!(!path_lies_under("in/a", "./in"));
    assert_eq!(mirror_path("/in/./x//a.json", "/in", "out"), Some("out/x//a.json".to_string()));
    assert_eq!(mirror_path("/in/./x//a.json", "/in//x", "out"), Some("out/a.json".to_string()));
}

#[test]
fn every_path_lies_under_the_empty_base() {
    assert!(path_lies_under("a", ""));
    assert!(path_lies_under("/a", ""));
    assert!(path_lies_under("", ""));
    assert!(path_lies_under("/a", "/"));
    assert!(!path_lies_under("a", "/"));
    assert!(!path_lies_under("", "/"));
    assert_eq!(mirror_path("a/b/", "", "out"), Some("out/a/b".to_string()));
    assert_eq!(mirror_path("/a", "", "out"), Some("/a".to_string()));
}
