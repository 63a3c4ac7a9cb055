use garbelour::Language;

#[test]
fn detects_rust() {
    assert_eq!(
        Language::detect("src/main.rs"),
        Some(Language::Rust)
    );
}

#[test]
fn detects_python() {
    assert_eq!(
        Language::detect("foo.py"),
        Some(Language::Python)
    );
    assert_eq!(
        Language::detect("foo.pyi"),
        Some(Language::Python)
    );
}

#[test]
fn detects_typescript() {
    assert_eq!(
        Language::detect("a/b.ts"),
        Some(Language::TypeScript)
    );
    assert_eq!(
        Language::detect("a/b.tsx"),
        Some(Language::TypeScript)
    );
    assert_eq!(
        Language::detect("a/b.mts"),
        Some(Language::TypeScript)
    );
}

#[test]
fn detects_javascript() {
    assert_eq!(
        Language::detect("a/b.js"),
        Some(Language::JavaScript)
    );
    assert_eq!(
        Language::detect("a/b.cjs"),
        Some(Language::JavaScript)
    );
}

#[test]
fn returns_none_for_unsupported() {
    assert_eq!(Language::detect("Cargo.toml"), None);
    assert_eq!(Language::detect("foo.go"), None);
    assert_eq!(Language::detect("README.md"), None);
    assert_eq!(Language::detect("no_extension"), None);
}

#[test]
fn case_insensitive_extension() {
    assert_eq!(Language::detect("Foo.RS"), Some(Language::Rust));
}
