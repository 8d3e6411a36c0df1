//! Language tags: the closed set of supported ecosystems, and the
//! per-language wall-clock timing policy.

use vstd::prelude::*;
use vstd::string::StrSliceExecFns;

verus! {

/// One of the six supported language ecosystems. The tag decides the build
/// command, the artifact file extension, and the shape of the run invocation.
#[derive(Clone, Copy, PartialEq, Eq, Structural, Debug)]
pub enum RunLang {
    C,
    Cpp,
    Python,
    Java,
    Go,
    Rust,
}

/// The error kinds of the engine. `InvalidLanguage` and `BuildFailed` are
/// fatal before any test execution; `RunIoError` marks a single run whose
/// process or scratch file could not be handled. A timeout is not an error:
/// it is an ordinary outcome.
#[derive(Clone, Copy, PartialEq, Eq, Structural, Debug)]
pub enum CmpError {
    InvalidLanguage,
    BuildFailed,
    RunIoError,
}

impl CmpError {
    /// A short diagnosis for reporting the error to a user.
    pub fn message(&self) -> (r: &'static str)
        ensures
            *self == CmpError::InvalidLanguage ==> r@ == "Wrong language name"@,
            *self == CmpError::BuildFailed
                ==> r@ == "Requested executable couldn't be generated"@,
            *self == CmpError::RunIoError ==> r@ == "A test run could not be executed"@,
    {
        match self {
            CmpError::InvalidLanguage => "Wrong language name",
            CmpError::BuildFailed => "Requested executable couldn't be generated",
            CmpError::RunIoError => "A test run could not be executed",
        }
    }
}

/// ASCII lower-casing of one character; anything but `'A'..='Z'` is kept.
pub open spec fn spec_lower(c: char) -> char {
    if 'A' <= c && c <= 'Z' {
        ((c as u8) + 32) as char
    } else {
        c
    }
}

/// `s` with every ASCII upper-case letter lowered.
pub open spec fn spec_lower_seq(s: Seq<char>) -> Seq<char> {
    s.map_values(|c: char| spec_lower(c))
}

fn lower_char(c: char) -> (r: char)
    ensures
        r == spec_lower(c),
{
    if 'A' <= c && c <= 'Z' {
        ((c as u8) + 32) as char
    } else {
        c
    }
}

/// Whether `s`, lowered, reads exactly as `lit`.
fn str_eq_lower(s: &str, lit: &str) -> (r: bool)
    ensures
        r == (spec_lower_seq(s@) == lit@),
{
    let n = s.unicode_len();
    if n != lit.unicode_len() {
        return false;
    }
    let mut i: usize = 0;
    while i < n
        invariant
            n == s@.len(),
            n == lit@.len(),
            i <= n,
            forall|j: int| 0 <= j < i ==> spec_lower(s@[j]) == lit@[j],
        decreases n - i,
    {
        let c = lower_char(s.get_char(i));
        if c != lit.get_char(i) {
            assert(spec_lower_seq(s@)[i as int] != lit@[i as int]);
            return false;
        }
        i = i + 1;
    }
    assert(spec_lower_seq(s@) =~= lit@);
    true
}

/// Which language a (case-insensitive) name or alias denotes, if any.
pub open spec fn spec_lang_of_name(s: Seq<char>) -> Option<RunLang> {
    let l = spec_lower_seq(s);
    if l == "c"@ {
        Some(RunLang::C)
    } else if l == "cpp"@ || l == "c++"@ {
        Some(RunLang::Cpp)
    } else if l == "py"@ || l == "python"@ || l == "pypy"@ {
        Some(RunLang::Python)
    } else if l == "java"@ {
        Some(RunLang::Java)
    } else if l == "go"@ || l == "golang"@ {
        Some(RunLang::Go)
    } else if l == "rust"@ || l == "rs"@ {
        Some(RunLang::Rust)
    } else {
        None
    }
}

/// Parses a language name or alias, ignoring ASCII case; any unrecognized
/// name fails with `InvalidLanguage`, before anything is built or run.
pub fn lang_from_name(s: &str) -> (r: Result<RunLang, CmpError>)
    ensures
        r is Ok <==> spec_lang_of_name(s@) is Some,
        r is Ok ==> spec_lang_of_name(s@) == Some(r->Ok_0),
        r is Err ==> r->Err_0 == CmpError::InvalidLanguage,
{
    if str_eq_lower(s, "c") {
        Ok(RunLang::C)
    } else if str_eq_lower(s, "cpp") || str_eq_lower(s, "c++") {
        Ok(RunLang::Cpp)
    } else if str_eq_lower(s, "py") || str_eq_lower(s, "python") || str_eq_lower(s, "pypy") {
        Ok(RunLang::Python)
    } else if str_eq_lower(s, "java") {
        Ok(RunLang::Java)
    } else if str_eq_lower(s, "go") || str_eq_lower(s, "golang") {
        Ok(RunLang::Go)
    } else if str_eq_lower(s, "rust") || str_eq_lower(s, "rs") {
        Ok(RunLang::Rust)
    } else {
        Err(CmpError::InvalidLanguage)
    }
}

/// The fixed source file name each language's program is read from.
pub open spec fn spec_source_file_name(lang: RunLang) -> Seq<char> {
    match lang {
        RunLang::C => "main.c"@,
        RunLang::Cpp => "main.cpp"@,
        RunLang::Python => "main.py"@,
        RunLang::Java => "Main.java"@,
        RunLang::Go => "main.go"@,
        RunLang::Rust => "main.rs"@,
    }
}

/// Names the source file a program slot of this language is read from.
pub fn source_file_name(lang: RunLang) -> (r: &'static str)
    ensures
        r@ == spec_source_file_name(lang),
{
    match lang {
        RunLang::C => "main.c",
        RunLang::Cpp => "main.cpp",
        RunLang::Python => "main.py",
        RunLang::Java => "Main.java",
        RunLang::Go => "main.go",
        RunLang::Rust => "main.rs",
    }
}

/// Adjusted run deadline in milliseconds for a nominal limit `tl`:
/// native-compiled and build-tool-compiled languages keep the nominal limit,
/// Go adds a fixed startup grace, Java doubles and adds grace, Python triples
/// and adds a larger grace; a negative adjusted value clamps to zero.
pub open spec fn spec_adjusted_limit_ms(lang: RunLang, tl: int) -> int {
    let adjusted = match lang {
        RunLang::C | RunLang::Cpp | RunLang::Rust => tl,
        RunLang::Go => tl + 2000,
        RunLang::Java => 2 * tl + 1000,
        RunLang::Python => 3 * tl + 2000,
    };
    if adjusted < 0 {
        0
    } else {
        adjusted
    }
}

/// Computes the adjusted deadline for one language from the nominal limit in
/// milliseconds, clamping negatives to zero.
pub fn adjusted_time_limit_ms(lang: RunLang, tl: i64) -> (r: u64)
    requires
        i64::MIN as int <= 3 * (tl as int),
        3 * (tl as int) + 2000 <= i64::MAX as int,
    ensures
        r == spec_adjusted_limit_ms(lang, tl as int),
{
    let adjusted: i64 = match lang {
        RunLang::C | RunLang::Cpp | RunLang::Rust => tl,
        RunLang::Go => tl + 2000,
        RunLang::Java => 2 * tl + 1000,
        RunLang::Python => 3 * tl + 2000,
    };
    if adjusted < 0 {
        0
    } else {
        adjusted as u64
    }
}

} // verus!
