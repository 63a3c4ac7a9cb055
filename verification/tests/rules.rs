use garbelour::classifiers::generated::{judge, read_gitattributes_generated, GlobError};
use garbelour::classifiers::{
    CommentOnly, ErrorHandlingDeleted, Generated, Lockfile, PublicApi, SizeThreshold,
};
use garbelour::classify::Finding;
use garbelour::{
    Category, Classifier, Diff, FileDiff, FileStatus, Hunk, HunkId, Language, Level, LineRange,
    Pipeline, PipelineConfig, Side, Source,
};

fn hunk(id: &str, added: Vec<u32>, removed: Vec<u32>) -> Hunk {
    Hunk {
        id: HunkId(id.to_string()),
        old_range: LineRange { start: 1, count: 3 },
        new_range: LineRange { start: 1, count: 3 },
        old_lines: vec!["a".into()],
        new_lines: vec!["b".into()],
        added: added.len() as u32,
        removed: removed.len() as u32,
        added_lines: added,
        removed_lines: removed,
    }
}

fn file(path: &str, old: &str, new: &str, hunks: Vec<Hunk>) -> FileDiff {
    let mut f = FileDiff::for_test(
        path.to_string(),
        FileStatus::Modified,
        Language::detect(path),
        hunks,
    );
    f.old_content = Some(old.to_string());
    f.new_content = Some(new.to_string());
    f
}

fn diff(files: Vec<FileDiff>) -> Diff {
    Diff {
        base_sha: "0".repeat(40),
        head_sha: "1".repeat(40),
        files,
    }
}

fn standard() -> Pipeline {
    Pipeline::standard(&PipelineConfig::default()).unwrap()
}

#[test]
fn levels_have_an_order() {
    let all = [Level::Skip, Level::Skim, Level::Review];
    for a in all {
        assert_eq!(a.max(a), a);
        for b in all {
            assert_eq!(a.max(b), b.max(a));
        }
    }
}

#[test]
fn standard_rules_stand_in_order() {
    let pipeline = standard();
    let names: Vec<&str> = pipeline.classifiers().iter().map(|c| c.name()).collect();
    assert_eq!(
        names,
        vec![
            "generated",
            "lockfile",
            "comment_only",
            "import_reorder",
            "public_api",
            "control_flow",
            "numerical_calc",
            "error_handling",
        ]
    );
    let places: Vec<i32> = pipeline.classifiers().iter().map(|c| c.priority()).collect();
    assert!(places.windows(2).all(|w| w[0] <= w[1]));
}

#[test]
fn every_hunk_comes_out_once_and_files_are_left() {
    let mut d = diff(vec![
        file(
            "src/a.rs",
            "pub fn f() {}\n",
            "pub fn f(x: u32) {}\n",
            vec![hunk("a:1", vec![1], vec![1]), hunk("a:9", vec![], vec![])],
        ),
        file("notes.txt", "x\n", "y\n", vec![hunk("n:1", vec![1], vec![1])]),
    ]);
    let (classified, unclassified) = standard().run(&mut d);
    let mut ids: Vec<String> = classified.iter().map(|c| c.hunk_id.0.clone()).collect();
    ids.extend(unclassified.iter().map(|u| u.hunk_id.0.clone()));
    ids.sort();
    assert_eq!(ids, vec!["a:1", "a:9", "n:1"]);
    assert!(classified.iter().all(|c| !c.findings.is_empty()));
    assert_eq!(d.files[0].hunks.len(), 2);
    assert_eq!(d.files[0].new_content.as_deref(), Some("pub fn f(x: u32) {}\n"));
}

#[test]
fn rules_by_syntax_point_at_lines_and_say_review() {
    let mut d = diff(vec![file(
        "src/a.rs",
        "pub fn f() {}\n",
        "pub fn f(x: u32) {}\n",
        vec![hunk("a:1", vec![1], vec![1])],
    )]);
    let (classified, _) = standard().run(&mut d);
    for f in &classified[0].findings {
        assert_eq!(f.level, Level::Review);
        assert!(f.focus_lines.is_some());
        assert!(matches!(&f.source, Source::Heuristic { name } if name == "public_api"));
    }
    assert_eq!(
        classified[0].findings[0].rationale,
        "public fn signature changed at lines 1–1"
    );
}

#[test]
fn unknown_languages_go_through_the_rules_by_path() {
    let mut d = diff(vec![
        file("go.sum", "if x {}\n", "if y {}\n", vec![hunk("g:1", vec![1], vec![1])]),
        file("main.go", "if x {}\n", "if y {}\n", vec![hunk("m:1", vec![1], vec![1])]),
    ]);
    let (classified, unclassified) = standard().run(&mut d);
    assert_eq!(classified.len(), 1);
    assert_eq!(classified[0].findings[0].category, Category::Lockfile);
    assert!(classified[0].findings[0].focus_lines.is_none());
    assert_eq!(unclassified[0].hunk_id.0, "m:1");
}

#[test]
fn lockfile_is_generated_and_a_lockfile() {
    let mut d = diff(vec![file("Cargo.lock", "", "", vec![hunk("c:1", vec![1], vec![1])])]);
    let (classified, _) = standard().run(&mut d);
    let categories: Vec<Category> = classified[0].findings.iter().map(|f| f.category).collect();
    assert_eq!(categories, vec![Category::Generated, Category::Lockfile]);
}

#[test]
fn invalid_globs_are_named() {
    let config = PipelineConfig {
        generated_globs: vec!["ok/**".to_string(), "a[".to_string(), "b[".to_string()],
        ..PipelineConfig::default()
    };
    assert!(matches!(
        Pipeline::standard(&config),
        Err(GlobError::Invalid(p)) if p == "a["
    ));
    assert!(matches!(
        Generated::new(vec!["{".to_string()], vec![]),
        Err(GlobError::Invalid(p)) if p == "{"
    ));
}

#[test]
fn a_cap_of_zero_still_lets_a_rule_speak() {
    let config = PipelineConfig {
        max_findings_per_classifier: 0,
        ..PipelineConfig::default()
    };
    let mut d = diff(vec![file("yarn.lock", "", "", vec![hunk("y:1", vec![1], vec![])])]);
    let (classified, _) = Pipeline::standard(&config).unwrap().run(&mut d);
    assert_eq!(classified[0].findings.len(), 2);
}

#[test]
fn marked_paths_count_before_globs() {
    let marked = judge(true, true).unwrap();
    assert_eq!(marked.rationale, "generated file (marked linguist-generated)");
    let matched = judge(false, true).unwrap();
    assert_eq!(matched.rationale, "generated file (matches generated_globs)");
    assert!(judge(false, false).is_none());
}

#[test]
fn globs_cross_directories() {
    let cls = Generated::new(vec![], vec![]).unwrap();
    let found = |path: &str| {
        let mut f = file(path, "", "", vec![]);
        !cls.classify(&mut f, &hunk("x:1", vec![1], vec![])).is_empty()
    };
    assert!(found("a/b/c.min.css"));
    assert!(found("dist/x/y"));
    assert!(!found("src/dist.rs"));
}

#[test]
fn attributes_are_read_line_by_line() {
    let paths = read_gitattributes_generated(
        "a.txt -text linguist-generated\nb.txt linguist-generated -linguist-generated\n\
         c.txt linguist-generated=false linguist-generated=true\n  # d.txt linguist-generated\n\
         a.txt linguist-generated\n",
    );
    assert_eq!(paths, vec!["a.txt", "c.txt"]);
}

#[test]
fn other_names_are_no_lockfiles() {
    let cls = Lockfile::new(vec![]);
    let mut f = file("Cargo.lock.bak", "", "", vec![]);
    assert!(cls.classify(&mut f, &hunk("x:1", vec![1], vec![])).is_none());
    let mut f = file("a/Cargo.lock", "", "", vec![]);
    let found = cls.classify(&mut f, &hunk("x:1", vec![1], vec![])).unwrap();
    assert_eq!(found.rationale, "lockfile update (Cargo.lock)");
}

#[test]
fn added_error_handling_is_benign() {
    let mut f = file("x.py", "do()\n", "try:\n    do()\nexcept E:\n    pass\n", vec![]);
    let h = hunk("x:1", vec![1, 2, 3, 4], vec![]);
    assert!(ErrorHandlingDeleted::new().classify(&mut f, &h).is_none());
}

#[test]
fn a_docstring_is_a_string_and_nothing_else() {
    let judge = |new: &str| {
        let mut f = file("x.py", "\"old\"\n", new, vec![]);
        let h = changed("\"old\"\n", new, vec![1], vec![1]);
        CommentOnly::new().classify(&mut f, &h).is_some()
    };
    assert!(judge("\"new\"\n"));
    assert!(!judge("\"new\", other\n"));
}

#[test]
fn a_construct_that_keeps_its_head_is_not_removed() {
    let old = "def f():\n    try:\n        do()\n    except K:\n        pass\n    except V:\n        pass\n";
    let mut f = file("x.py", old, "", vec![]);
    let found = ErrorHandlingDeleted::new()
        .classify(&mut f, &hunk("x:1", vec![], vec![6, 7]))
        .unwrap();
    assert_eq!(found.rationale, "removed except clause at old lines 6–7");
    let mut f = file("x.py", old, "", vec![]);
    assert!(ErrorHandlingDeleted::new()
        .classify(&mut f, &hunk("x:1", vec![], vec![7]))
        .is_none());
}

#[test]
fn removed_error_handling_points_at_old_lines() {
    let mut f = file(
        "x.py",
        "def f():\n    try:\n        do()\n    except E:\n        pass\n",
        "def f():\n    do()\n",
        vec![],
    );
    let h = hunk("x:1", vec![2], vec![2, 3, 4, 5]);
    let found: Finding = ErrorHandlingDeleted::new().classify(&mut f, &h).unwrap();
    let focus = found.focus_lines.unwrap();
    assert_eq!((focus.start, focus.end, focus.side), (2, 5, Side::Old));
}

#[test]
fn without_changed_lines_there_is_no_finding() {
    let mut f = file("x.rs", "pub fn f() {}\n", "pub fn g() {}\n", vec![]);
    assert!(PublicApi::new().classify(&mut f, &hunk("x:1", vec![], vec![])).is_none());
}

#[test]
fn large_hunks_say_how_large() {
    let mut f = file("x.txt", "", "", vec![]);
    let h = hunk("x:1", vec![1, 2, 3], vec![1]);
    let found = SizeThreshold::new(3).classify(&mut f, &h).unwrap();
    assert!(found.rationale.starts_with("4 changed lines (>3"));
    assert!(found.focus_lines.is_none());
    assert!(SizeThreshold::new(4).classify(&mut f, &h).is_none());
}

fn changed(old: &str, new: &str, added: Vec<u32>, removed: Vec<u32>) -> Hunk {
    let lines = |s: &str| -> Vec<String> { s.lines().map(|l| l.to_string()).collect() };
    let mut h = hunk("x:1", added, removed);
    h.old_lines = lines(old);
    h.new_lines = lines(new);
    h.old_range.count = h.old_lines.len() as u32;
    h.new_range.count = h.new_lines.len() as u32;
    h
}

#[test]
fn code_beside_a_comment_is_no_comment() {
    let judge = |old: &str, new: &str, line: u32| {
        let mut f = file("x.rs", old, new, vec![]);
        let h = changed(old, new, vec![line], vec![line]);
        CommentOnly::new().classify(&mut f, &h).is_some()
    };
    assert!(!judge("fn a() { 1 } // n\n", "fn a() { 2 } // n\n", 1));
    assert!(judge("    // n\nfn a() {}\n", "    // m\nfn a() {}\n", 1));
    assert!(judge("/* a\n b é\n c */\n", "/* a\n d é\n c */\n", 2));
    assert!(!judge("/// doc\nfn a() {}\n", "/// doc\nfn b() {}\n", 2));
}

#[test]
fn a_line_is_looked_up_in_its_file() {
    let (old, new) = ("fn a() {}\n// n\n", "fn a() {}\n// m\n");
    let mut f = file("x.rs", old, new, vec![]);
    let mut h = changed(old, new, vec![2], vec![2]);
    h.old_lines.clear();
    h.new_lines.clear();
    assert!(CommentOnly::new().classify(&mut f, &h).is_some());
    h.added_lines = vec![1];
    assert!(CommentOnly::new().classify(&mut f, &h).is_none());
    h.added_lines = vec![9];
    assert!(CommentOnly::new().classify(&mut f, &h).is_none());
}

#[test]
fn a_return_type_is_part_of_the_signature() {
    let old = "pub fn f(\n    x: u32,\n) -> u32 {\n    todo!()\n}\n";
    let new = "pub fn f(\n    x: u32,\n) -> u64 {\n    todo!()\n}\n";
    let mut f = file("x.rs", old, new, vec![]);
    let found = PublicApi::new().classify(&mut f, &changed(old, new, vec![3], vec![3])).unwrap();
    let focus = found.focus_lines.unwrap();
    assert_eq!((focus.start, focus.end, focus.side), (1, 3, Side::New));
    let mut f = file("x.rs", old, new, vec![]);
    assert!(PublicApi::new().classify(&mut f, &changed(old, new, vec![4], vec![4])).is_none());
}

#[test]
fn a_decorator_is_part_of_the_signature() {
    let (old, new) = ("@a\ndef f(x):\n    return x\n", "@b\ndef f(x):\n    return x\n");
    let mut f = file("x.py", old, new, vec![]);
    let found = PublicApi::new().classify(&mut f, &changed(old, new, vec![1], vec![1])).unwrap();
    let focus = found.focus_lines.unwrap();
    assert_eq!((focus.start, focus.end, focus.side), (1, 2, Side::New));
}

#[test]
fn bodies_of_traits_and_classes_are_no_signatures() {
    let (old, new) = ("pub trait T {\n    fn a();\n}\n", "pub trait T {\n    fn b();\n}\n");
    let mut f = file("x.rs", old, new, vec![]);
    assert!(PublicApi::new().classify(&mut f, &changed(old, new, vec![2], vec![2])).is_none());
    assert!(PublicApi::new().classify(&mut f, &changed(old, new, vec![1], vec![1])).is_some());
    let (old, new) = ("class C:\n    x = 1\n", "class C:\n    x = 2\n");
    let mut f = file("x.py", old, new, vec![]);
    assert!(PublicApi::new().classify(&mut f, &changed(old, new, vec![2], vec![2])).is_none());
    assert!(PublicApi::new().classify(&mut f, &changed(old, new, vec![1], vec![1])).is_some());
}
