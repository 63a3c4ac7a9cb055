//! Language detection from file extensions.
use vstd::prelude::*;

use crate::path;
use crate::text;

verus! {

/// A language whose syntax the classifiers understand.
#[derive(Clone, Copy, Debug, PartialEq, Eq, Structural)]
pub enum Language {
    Rust,
    Python,
    TypeScript,
    JavaScript,
}

/// The extensions of files in a language.
pub open spec fn extensions_of(language: Language) -> Seq<Seq<char>> {
    match language {
        Language::Rust => seq!["rs"@],
        Language::Python => seq!["py"@, "pyi"@],
        Language::TypeScript => seq!["ts"@, "tsx"@, "mts"@, "cts"@],
        Language::JavaScript => seq!["js"@, "jsx"@, "mjs"@, "cjs"@],
    }
}

/// The name of a language.
pub open spec fn name_of(language: Language) -> Seq<char> {
    match language {
        Language::Rust => "rust"@,
        Language::Python => "python"@,
        Language::TypeScript => "typescript"@,
        Language::JavaScript => "javascript"@,
    }
}

/// The language whose extensions hold this one.
pub open spec fn with_extension(ext: Seq<char>) -> Option<Language> {
    if extensions_of(Language::Rust).contains(ext) {
        Some(Language::Rust)
    } else if extensions_of(Language::Python).contains(ext) {
        Some(Language::Python)
    } else if extensions_of(Language::TypeScript).contains(ext) {
        Some(Language::TypeScript)
    } else if extensions_of(Language::JavaScript).contains(ext) {
        Some(Language::JavaScript)
    } else {
        None
    }
}

/// The language of the file that a path names: that of its extension, in
/// upper or lower case.
pub open spec fn detected(path: Seq<char>) -> Option<Language> {
    match path::extension_of(path) {
        Some(ext) => with_extension(text::lowered(ext)),
        None => None,
    }
}

/// Whether the text is one of the extensions of the language.
fn is_extension_of(language: Language, ext: &[char]) -> (r: bool)
    ensures
        r == extensions_of(language).contains(ext@),
{
    let all: &[&'static str] = language.extensions();
    let mut i: usize = 0;
    while i < all.len()
        invariant
            i <= all.len(),
            text::views(all@) == extensions_of(language),
            forall|k: int| 0 <= k < i ==> extensions_of(language)[k] != ext@,
        decreases all.len() - i,
    {
        if text::same(&text::chars(all[i]), ext) {
            assert(extensions_of(language)[i as int] == ext@);
            return true;
        }
        i = i + 1;
    }
    false
}

impl Language {
    /// The language of the file that a path names, by its extension.
    pub fn detect(path: &str) -> (r: Option<Language>)
        ensures
            r == detected(path@),
    {
        let ext: Vec<char> = match path::extension(path) {
            Some(e) => text::to_lower(&e),
            None => return None,
        };
        if is_extension_of(Language::Rust, &ext) {
            Some(Language::Rust)
        } else if is_extension_of(Language::Python, &ext) {
            Some(Language::Python)
        } else if is_extension_of(Language::TypeScript, &ext) {
            Some(Language::TypeScript)
        } else if is_extension_of(Language::JavaScript, &ext) {
            Some(Language::JavaScript)
        } else {
            None
        }
    }

    /// The name of the language, in lower case.
    pub fn as_str(&self) -> (r: &'static str)
        ensures
            r@ == name_of(*self),
    {
        match self {
            Language::Rust => "rust",
            Language::Python => "python",
            Language::TypeScript => "typescript",
            Language::JavaScript => "javascript",
        }
    }

    /// The extensions of files in the language.
    pub fn extensions(&self) -> (r: &'static [&'static str])
        ensures
            text::views(r@) == extensions_of(*self),
    {
        let r: &'static [&'static str] = match self {
            Language::Rust => &["rs"],
            Language::Python => &["py", "pyi"],
            Language::TypeScript => &["ts", "tsx", "mts", "cts"],
            Language::JavaScript => &["js", "jsx", "mjs", "cjs"],
        };
        assert(text::views(r@) =~= extensions_of(*self));
        r
    }
}

/// A file is of a language exactly where its extension, in lower case, is one
/// of those that the language lists: no extension belongs to two languages.
pub proof fn law_detected_by_extension(path: Seq<char>, language: Language)
    ensures
        detected(path) == Some(language) <==> (path::extension_of(path) matches Some(ext)
            && extensions_of(language).contains(text::lowered(ext))),
{
    reveal_strlit("rs");
    reveal_strlit("py");
    reveal_strlit("pyi");
    reveal_strlit("ts");
    reveal_strlit("tsx");
    reveal_strlit("mts");
    reveal_strlit("cts");
    reveal_strlit("js");
    reveal_strlit("jsx");
    reveal_strlit("mjs");
    reveal_strlit("cjs");
    assert forall|a: Language, b: Language, ext: Seq<char>|
        a != b && #[trigger] extensions_of(a).contains(ext) implies !(
    #[trigger] extensions_of(b).contains(ext)) by {
        let i = choose|i: int| 0 <= i < extensions_of(a).len() && extensions_of(a)[i] == ext;
        assert forall|j: int| 0 <= j < extensions_of(b).len() implies extensions_of(b)[j]
            != ext by {
            assert(extensions_of(b)[j].len() == ext.len() ==> extensions_of(b)[j][0] != ext[0]
                || extensions_of(b)[j][1] != ext[1]);
        }
    }
}

/// The languages that are known, by the extension of a file in lower case.
pub proof fn law_known_extensions(path: Seq<char>)
    ensures
        ({
            let e = match path::extension_of(path) {
                Some(ext) => text::lowered(ext),
                None => ""@,
            };
            &&& detected(path) == Some(Language::Rust) <==> e == "rs"@
            &&& detected(path) == Some(Language::Python) <==> e == "py"@ || e == "pyi"@
            &&& detected(path) == Some(Language::TypeScript) <==> e == "ts"@ || e == "tsx"@ || e
                == "mts"@ || e == "cts"@
            &&& detected(path) == Some(Language::JavaScript) <==> e == "js"@ || e == "jsx"@ || e
                == "mjs"@ || e == "cjs"@
        }),
{
    let e = match path::extension_of(path) {
        Some(ext) => text::lowered(ext),
        None => ""@,
    };
    reveal_strlit("");
    reveal_strlit("rs");
    reveal_strlit("py");
    reveal_strlit("pyi");
    reveal_strlit("ts");
    reveal_strlit("tsx");
    reveal_strlit("mts");
    reveal_strlit("cts");
    reveal_strlit("js");
    reveal_strlit("jsx");
    reveal_strlit("mjs");
    reveal_strlit("cjs");
    law_detected_by_extension(path, Language::Rust);
    law_detected_by_extension(path, Language::Python);
    law_detected_by_extension(path, Language::TypeScript);
    law_detected_by_extension(path, Language::JavaScript);
    assert(""@.len() == 0 && "rs"@.len() == 2 && "py"@.len() == 2 && "pyi"@.len() == 3);
    assert("ts"@.len() == 2 && "tsx"@.len() == 3 && "mts"@.len() == 3 && "cts"@.len() == 3);
    assert("js"@.len() == 2 && "jsx"@.len() == 3 && "mjs"@.len() == 3 && "cjs"@.len() == 3);
    let r = extensions_of(Language::Rust);
    let p = extensions_of(Language::Python);
    let t = extensions_of(Language::TypeScript);
    let j = extensions_of(Language::JavaScript);
    assert(r[0] == "rs"@ && p[0] == "py"@ && p[1] == "pyi"@);
    assert(t[0] == "ts"@ && t[1] == "tsx"@ && t[2] == "mts"@ && t[3] == "cts"@);
    assert(j[0] == "js"@ && j[1] == "jsx"@ && j[2] == "mjs"@ && j[3] == "cjs"@);
    assert(r.contains(e) <==> e == "rs"@);
    assert(p.contains(e) <==> e == "py"@ || e == "pyi"@);
    assert(t.contains(e) <==> e == "ts"@ || e == "tsx"@ || e == "mts"@ || e == "cts"@);
    assert(j.contains(e) <==> e == "js"@ || e == "jsx"@ || e == "mjs"@ || e == "cjs"@);
}

} // verus!
