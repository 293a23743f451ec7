use vstd::prelude::*;

use crate::text::{ascii_lower, ascii_lowercase, ascii_lowercase_chars, chars_eq, chars_of};

verus! {

/// Programming language of a source file.
///
/// The set matches the languages DevPilot ships analysis grammars for.
/// Files in other languages are `Unknown`: they still receive line-based
/// metrics, but no AST metrics.
#[derive(Clone, Copy, PartialEq, Eq, Structural, Debug, Hash)]
pub enum Language {
    /// Rust (`.rs`).
    Rust,
    /// TypeScript, including TSX (`.ts`, `.tsx`).
    TypeScript,
    /// JavaScript, including JSX and module variants (`.js`, `.jsx`, `.mjs`, `.cjs`).
    JavaScript,
    /// Python (`.py`).
    Python,
    /// Go (`.go`).
    Go,
    /// Any language DevPilot has no grammar for.
    Unknown,
}

/// The language an extension (without the dot) denotes, ignoring ASCII case.
pub open spec fn language_of_extension(ext: Seq<char>) -> Language {
    let e = ascii_lowercase(ext);
    if e == seq!['r', 's'] {
        Language::Rust
    } else if e == seq!['t', 's'] || e == seq!['t', 's', 'x'] {
        Language::TypeScript
    } else if e == seq!['j', 's'] || e == seq!['j', 's', 'x'] || e == seq!['m', 'j', 's'] || e
        == seq!['c', 'j', 's'] {
        Language::JavaScript
    } else if e == seq!['p', 'y'] {
        Language::Python
    } else if e == seq!['g', 'o'] {
        Language::Go
    } else {
        Language::Unknown
    }
}

/// Human-readable name of a language.
pub open spec fn language_name(l: Language) -> Seq<char> {
    match l {
        Language::Rust => "Rust"@,
        Language::TypeScript => "TypeScript"@,
        Language::JavaScript => "JavaScript"@,
        Language::Python => "Python"@,
        Language::Go => "Go"@,
        Language::Unknown => "Unknown"@,
    }
}

/// Position of a language in declaration order (the order `derive(Ord)` gives).
pub open spec fn language_index(l: Language) -> int {
    match l {
        Language::Rust => 0,
        Language::TypeScript => 1,
        Language::JavaScript => 2,
        Language::Python => 3,
        Language::Go => 4,
        Language::Unknown => 5,
    }
}

/// All languages in declaration order.
pub open spec fn all_languages() -> Seq<Language> {
    seq![
        Language::Rust,
        Language::TypeScript,
        Language::JavaScript,
        Language::Python,
        Language::Go,
        Language::Unknown,
    ]
}

/// Whether `cs` equals the characters of the literal `lit`.
fn is_word(cs: &[char], lit: &str) -> (r: bool)
    ensures
        r == (cs@ == lit@),
{
    let w = chars_of(lit);
    chars_eq(cs, &w)
}

impl Language {
    /// Detects a language from a file extension (without the leading dot).
    ///
    /// Matching is case-insensitive. Unrecognized extensions yield
    /// [`Language::Unknown`].
    pub fn from_extension(extension: &str) -> (r: Language)
        ensures
            r == language_of_extension(extension@),
    {
        let raw = chars_of(extension);
        let e = ascii_lowercase_chars(&raw);
        proof {
            reveal_strlit("rs");
            reveal_strlit("ts");
            reveal_strlit("tsx");
            reveal_strlit("js");
            reveal_strlit("jsx");
            reveal_strlit("mjs");
            reveal_strlit("cjs");
            reveal_strlit("py");
            reveal_strlit("go");
            assert("rs"@ =~= seq!['r', 's']);
            assert("ts"@ =~= seq!['t', 's']);
            assert("tsx"@ =~= seq!['t', 's', 'x']);
            assert("js"@ =~= seq!['j', 's']);
            assert("jsx"@ =~= seq!['j', 's', 'x']);
            assert("mjs"@ =~= seq!['m', 'j', 's']);
            assert("cjs"@ =~= seq!['c', 'j', 's']);
            assert("py"@ =~= seq!['p', 'y']);
            assert("go"@ =~= seq!['g', 'o']);
        }
        if is_word(&e, "rs") {
            Language::Rust
        } else if is_word(&e, "ts") || is_word(&e, "tsx") {
            Language::TypeScript
        } else if is_word(&e, "js") || is_word(&e, "jsx") || is_word(&e, "mjs") || is_word(
            &e,
            "cjs",
        ) {
            Language::JavaScript
        } else if is_word(&e, "py") {
            Language::Python
        } else if is_word(&e, "go") {
            Language::Go
        } else {
            Language::Unknown
        }
    }

    /// Human-readable language name.
    pub fn name(&self) -> (r: &'static str)
        ensures
            r@ == language_name(*self),
    {
        match self {
            Language::Rust => "Rust",
            Language::TypeScript => "TypeScript",
            Language::JavaScript => "JavaScript",
            Language::Python => "Python",
            Language::Go => "Go",
            Language::Unknown => "Unknown",
        }
    }

    /// Position in declaration order.
    pub fn index(&self) -> (r: usize)
        ensures
            r == language_index(*self),
    {
        match self {
            Language::Rust => 0,
            Language::TypeScript => 1,
            Language::JavaScript => 2,
            Language::Python => 3,
            Language::Go => 4,
            Language::Unknown => 5,
        }
    }

    /// The language at a position in declaration order.
    pub fn at_index(i: usize) -> (r: Language)
        requires
            i < 6,
        ensures
            r == all_languages()[i as int],
            language_index(r) == i,
    {
        match i {
            0 => Language::Rust,
            1 => Language::TypeScript,
            2 => Language::JavaScript,
            3 => Language::Python,
            4 => Language::Go,
            _ => Language::Unknown,
        }
    }
}

/// Lowercasing an extension does not change its language, and extensions
/// that differ only in ASCII case denote the same language.
pub proof fn law_extension_case_insensitive(a: Seq<char>, b: Seq<char>)
    ensures
        language_of_extension(ascii_lowercase(a)) == language_of_extension(a),
        ascii_lowercase(a) == ascii_lowercase(b) ==> language_of_extension(a) == language_of_extension(b),
{
    assert forall|i: int| 0 <= i < a.len() implies ascii_lower(#[trigger] ascii_lower(a[i])) == ascii_lower(a[i]) by {
        let c = a[i];
        if 'A' <= c <= 'Z' {
            assert((c as u32) + 32 >= 97);
        }
    }
    assert(ascii_lowercase(ascii_lowercase(a)) =~= ascii_lowercase(a));
}

} // verus!
