//! The process-runner decisions: how an artifact is invoked for its
//! language, which text a finished run reports, and the unique name of the
//! scratch file that carries one input.
//!
//! Spawning, the deadline race and file handling are left to the unverified
//! shell; it feeds the observed facts (timed out or not, captured streams)
//! back into the functions here.

use vstd::prelude::*;
use vstd::string::StrSliceExecFns;
use crate::compile::ExecutableArtifact;
use crate::rng::sample_alnum_byte;
use crate::stringproc::chars_to_string;

verus! {

/// How to start one run of an artifact: a program name and its arguments.
pub struct Invocation {
    pub program: String,
    pub args: Vec<String>,
}

impl View for Invocation {
    type V = (Seq<char>, Seq<Seq<char>>);

    open spec fn view(&self) -> (Seq<char>, Seq<Seq<char>>) {
        (self.program@, self.args.deep_view())
    }
}

/// The invocation shape per language: the interpreted artifact runs under
/// its interpreter, the archive under the VM runtime with a classpath and
/// the fixed entry class, every other artifact runs directly.
pub open spec fn spec_invocation(lang: crate::lang::RunLang, prog: Seq<char>) -> (
    Seq<char>,
    Seq<Seq<char>>,
) {
    match lang {
        crate::lang::RunLang::Python => ("python3"@, seq![prog]),
        crate::lang::RunLang::Java => ("java"@, seq!["-classpath"@, prog, "Main"@]),
        _ => (prog, Seq::<Seq<char>>::empty()),
    }
}

/// Translates an artifact into the concrete invocation for its language.
pub fn invocation_for(artifact: &ExecutableArtifact) -> (inv: Invocation)
    ensures
        inv@ == spec_invocation(artifact.lang, artifact.path@),
{
    match artifact.lang {
        crate::lang::RunLang::Python => {
            let mut args: Vec<String> = Vec::new();
            args.push(artifact.path.clone());
            let inv = Invocation { program: String::from_str("python3"), args };
            proof {
                assert(inv@.1 =~= spec_invocation(artifact.lang, artifact.path@).1);
            }
            inv
        },
        crate::lang::RunLang::Java => {
            let mut args: Vec<String> = Vec::new();
            args.push(String::from_str("-classpath"));
            args.push(artifact.path.clone());
            args.push(String::from_str("Main"));
            let inv = Invocation { program: String::from_str("java"), args };
            proof {
                assert(inv@.1 =~= spec_invocation(artifact.lang, artifact.path@).1);
            }
            inv
        },
        _ => {
            let args: Vec<String> = Vec::new();
            let inv = Invocation { program: artifact.path.clone(), args };
            proof {
                assert(inv@.1 =~= spec_invocation(artifact.lang, artifact.path@).1);
            }
            inv
        },
    }
}

/// The sentinel text by which, alone, a caller can tell a timed-out run.
pub fn timeout_sentinel() -> (r: &'static str)
    ensures
        r@ == "Timeout"@,
{
    "Timeout"
}

/// The text one finished run reports: the timeout sentinel if the deadline
/// won the race; otherwise the captured standard error when there is any
/// (diagnostics stand in for the program's answer), else standard output.
pub fn outcome_text(timed_out: bool, out: String, err: String) -> (r: String)
    ensures
        timed_out ==> r@ == "Timeout"@,
        !timed_out && err@.len() == 0 ==> r == out,
        !timed_out && err@.len() > 0 ==> r == err,
{
    if timed_out {
        String::from_str("Timeout")
    } else if err.as_str().unicode_len() == 0 {
        out
    } else {
        err
    }
}

/// Letters or digits a scratch-file name is drawn from.
pub open spec fn is_alnum_char(c: char) -> bool {
    ('A' <= c && c <= 'Z') || ('a' <= c && c <= 'z') || ('0' <= c && c <= '9')
}

/// Random characters in a scratch-file name: 62 choices each, so the name
/// carries far more than 30 bits of randomness and concurrent runs sharing
/// one scratch directory will not collide in practice.
pub const SCRATCH_NAME_RANDOM_LEN: usize = 30;

/// Draws a fresh scratch-file name: random letters and digits, then the
/// fixed `.txt` extension.
pub fn scratch_file_name(rng: &mut rand::rngs::ThreadRng) -> (s: String)
    ensures
        s@.len() == SCRATCH_NAME_RANDOM_LEN + 4,
        forall|i: int|
            0 <= i < SCRATCH_NAME_RANDOM_LEN ==> is_alnum_char(#[trigger] s@[i]),
        s@.skip(SCRATCH_NAME_RANDOM_LEN as int) == ".txt"@,
{
    let mut v: Vec<char> = Vec::new();
    let mut i: usize = 0;
    while i < SCRATCH_NAME_RANDOM_LEN
        invariant
            i <= SCRATCH_NAME_RANDOM_LEN,
            v@.len() == i,
            forall|j: int| 0 <= j < i ==> is_alnum_char(#[trigger] v@[j]),
        decreases SCRATCH_NAME_RANDOM_LEN - i,
    {
        let b = sample_alnum_byte(rng);
        v.push(b as char);
        i = i + 1;
    }
    v.push('.');
    v.push('t');
    v.push('x');
    v.push('t');
    let s = chars_to_string(&v);
    proof {
        reveal_strlit(".txt");
        assert(s@.skip(SCRATCH_NAME_RANDOM_LEN as int) =~= ".txt"@);
    }
    s
}

} // verus!
