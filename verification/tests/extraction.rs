use garbelour::diff;
use garbelour::{Diff, FileStatus};

const BASE: &str = "526f797aa0c1d2e3f405162738495a6b7c8d9e0f";
const HEAD: &str = "0123456789abcdef0123456789abcdef01234567";

const RAW: &str = ":100644 100644 1f2e3d 4c5b6a M\0README.md\0\
                   :000000 100644 000000 77aa55 A\0src/lib.rs\0";

const UNIFIED: &str = "diff --git a/README.md b/README.md\n\
                       index 1f2e3d..4c5b6a 100644\n\
                       --- a/README.md\n\
                       +++ b/README.md\n\
                       @@ -1 +1,3 @@\n\
                       -# garbelour-rs\n\
                       +# garbelour\n\
                       +\n\
                       +Classify every hunk in a git diff.\n\
                       diff --git a/src/lib.rs b/src/lib.rs\n\
                       new file mode 100644\n\
                       --- /dev/null\n\
                       +++ b/src/lib.rs\n\
                       @@ -0,0 +1 @@\n\
                       +pub mod diff;\n";

fn seed() -> Diff {
    diff::extract(".", BASE, HEAD, RAW, UNIFIED).unwrap()
}

#[test]
fn extracts_diff_between_seed_commits() {
    let d = seed();
    assert_eq!(d.base_sha.len(), 40);
    assert_eq!(d.head_sha.len(), 40);
    let readme = d
        .files
        .iter()
        .find(|f| f.path.ends_with("README.md"))
        .expect("README.md should appear in the diff");
    assert!(matches!(
        readme.status,
        FileStatus::Added | FileStatus::Modified
    ));
    assert!(!readme.hunks.is_empty(), "README.md hunks should be parsed");
    let h = &readme.hunks[0];
    assert!(!h.new_lines.is_empty());
    assert!(h.id.0.contains("README.md"));
}

#[test]
fn ensure_content_loads_lazily() {
    let mut d = seed();
    let readme = d
        .files
        .iter_mut()
        .find(|f| f.path.ends_with("README.md"))
        .expect("README.md");
    assert!(readme.new_content.is_none());
    let (old, new) = readme.wanted_content();
    assert_eq!(old.unwrap().sha, BASE);
    assert_eq!(new.unwrap().sha, HEAD);
    readme.ensure_content(
        Some("# garbelour-rs\n".into()),
        Some("# garbelour\n\nClassify every hunk in a git diff.\n".into()),
    );
    assert!(readme.new_content.is_some());
    assert!(readme
        .new_content
        .as_ref()
        .unwrap()
        .to_lowercase()
        .contains("garbelour"));
}
