//! The build step: from a language tag and a source location to the exact
//! external commands that produce one runnable artifact, and the decision
//! that a build failed when the artifact is missing afterwards.
//!
//! Only planning and checking live here; spawning the planned commands is
//! left to the unverified shell around the library.

use vstd::prelude::*;
use vstd::string::StrSliceExecFns;
use vstd::string::StringExecFns;
use crate::lang::CmpError;
use crate::lang::RunLang;

verus! {

/// One external command: a program name and its arguments.
pub struct BuildCmd {
    pub program: String,
    pub args: Vec<String>,
}

impl View for BuildCmd {
    type V = (Seq<char>, Seq<Seq<char>>);

    open spec fn view(&self) -> (Seq<char>, Seq<Seq<char>>) {
        (self.program@, self.args.deep_view())
    }
}

impl DeepView for BuildCmd {
    type V = (Seq<char>, Seq<Seq<char>>);

    open spec fn deep_view(&self) -> (Seq<char>, Seq<Seq<char>>) {
        self.view()
    }
}

/// The commands that build one program, in order, and the path the finished
/// artifact must appear at.
pub struct BuildPlan {
    pub commands: Vec<BuildCmd>,
    pub artifact_path: String,
}

/// The runnable unit a successful build step hands out: where the artifact
/// lies and which language's runtime it takes. Built once per program slot
/// and reused across all batches.
pub struct ExecutableArtifact {
    pub lang: RunLang,
    pub path: String,
}

/// File extension of the artifact: a copied script for the interpreted
/// language, an archive for the VM language, a generic executable otherwise.
pub open spec fn spec_artifact_ext(lang: RunLang) -> Seq<char> {
    match lang {
        RunLang::Python => "py"@,
        RunLang::Java => "jar"@,
        _ => "exe"@,
    }
}

/// `dir` and `file` joined with one `'/'`; an empty `dir` yields `file`
/// alone, and a `dir` already ending in `'/'` gains no second one.
pub open spec fn spec_join_path(dir: Seq<char>, file: Seq<char>) -> Seq<char> {
    if dir.len() == 0 {
        file
    } else if dir.last() == '/' {
        dir + file
    } else {
        dir + "/"@ + file
    }
}

/// Where the artifact for `lang` goes: `name` with the language's extension,
/// under `dir`.
pub open spec fn spec_artifact_path(lang: RunLang, dir: Seq<char>, name: Seq<char>) -> Seq<char> {
    spec_join_path(dir, name + "."@ + spec_artifact_ext(lang))
}

/// The longest prefix of `p` up to (and not including) its last `'/'`;
/// empty when `p` holds no `'/'`.
pub open spec fn spec_dir_of(p: Seq<char>) -> Seq<char>
    decreases p.len(),
{
    if p.len() == 0 {
        p
    } else if p.last() == '/' {
        p.drop_last()
    } else {
        spec_dir_of(p.drop_last())
    }
}

/// The commands that build a program of language `lang` from source `code`
/// into `artifact`, in order:
/// the native compilers get one optimized, warning, statically linked call
/// with a pinned language standard; the interpreted language is copied
/// verbatim; the VM language is compiled to class files beside its source
/// and then archived (and the class files removed); the build-tool-managed
/// languages invoke their own build command with an explicit output.
pub open spec fn spec_build_commands(
    lang: RunLang,
    code: Seq<char>,
    artifact: Seq<char>,
) -> Seq<(Seq<char>, Seq<Seq<char>>)> {
    match lang {
        RunLang::C => seq![
            ("gcc"@, seq![code, "-o"@, artifact, "-O2"@, "-Wall"@, "-lm"@, "-static"@,
                "-std=gnu11"@]),
        ],
        RunLang::Cpp => seq![
            ("g++"@, seq![code, "-o"@, artifact, "-O2"@, "-Wall"@, "-lm"@, "-static"@,
                "-std=gnu++17"@]),
        ],
        RunLang::Python => seq![("cp"@, seq![code, artifact])],
        RunLang::Java => seq![
            ("javac"@, seq!["-encoding"@, "utf-8"@, code]),
            ("bash"@, seq!["-c"@,
                "cd "@ + spec_dir_of(code) + " && jar -cf "@ + artifact
                    + " *.class && rm *.class"@]),
        ],
        RunLang::Go => seq![("go"@, seq!["build"@, "-o"@, artifact, code])],
        RunLang::Rust => seq![
            ("rustc"@, seq!["--edition"@, "2021"@, "-O"@, "-o"@, artifact, code]),
        ],
    }
}

proof fn lemma_dir_of_at(p: Seq<char>, k: int)
    requires
        0 <= k <= p.len(),
        forall|j: int| k <= j < p.len() ==> p[j] != '/',
        k == 0 || p[k - 1] == '/',
    ensures
        spec_dir_of(p) == if k == 0 {
            Seq::<char>::empty()
        } else {
            p.take(k - 1)
        },
    decreases p.len(),
{
    if k == p.len() {
        if k == 0 {
            assert(p =~= Seq::<char>::empty());
        } else {
            assert(p.last() == '/');
            assert(p.drop_last() =~= p.take(k - 1));
        }
    } else {
        assert(p[p.len() - 1] != '/');
        lemma_dir_of_at(p.drop_last(), k);
        if k > 0 {
            assert(p.drop_last().take(k - 1) =~= p.take(k - 1));
        }
    }
}

/// The parent directory of `p`: everything before the last `'/'`, or the
/// empty string when there is none.
pub fn dir_of(p: &str) -> (d: String)
    ensures
        d@ == spec_dir_of(p@),
{
    let n = p.unicode_len();
    let mut k: usize = n;
    while k > 0 && p.get_char(k - 1) != '/'
        invariant
            n == p@.len(),
            k <= n,
            forall|j: int| k <= j < n ==> p@[j] != '/',
        decreases k,
    {
        k = k - 1;
    }
    proof {
        lemma_dir_of_at(p@, k as int);
    }
    if k == 0 {
        let d = String::new();
        assert(d@ =~= Seq::<char>::empty());
        d
    } else {
        let d = p.substring_char(0, k - 1);
        assert(d@ =~= p@.take(k - 1));
        String::from_str(d)
    }
}

/// `dir` and `file` joined with one separator, as `spec_join_path` says.
pub fn join_path(dir: &str, file: &str) -> (r: String)
    ensures
        r@ == spec_join_path(dir@, file@),
{
    let n = dir.unicode_len();
    if n == 0 {
        return String::from_str(file);
    }
    let mut r = String::from_str(dir);
    if dir.get_char(n - 1) != '/' {
        r.append("/");
    }
    r.append(file);
    r
}

fn push_str_arg(args: &mut Vec<String>, s: &str)
    ensures
        final(args)@.len() == old(args)@.len() + 1,
        final(args).deep_view() =~= old(args).deep_view().push(s@),
{
    args.push(String::from_str(s));
    proof {
        assert(args.deep_view() =~= old(args).deep_view().push(s@));
    }
}

/// Plans the build of one program slot: the commands to run, in order, and
/// the artifact path they must produce. `code_path` and `exec_dir` are
/// expected to be already-resolved paths; `exec_name` is the bare artifact
/// name, which gains the language's extension.
pub fn build_plan(lang: RunLang, code_path: &str, exec_dir: &str, exec_name: &str) -> (plan:
    BuildPlan)
    ensures
        plan.artifact_path@ == spec_artifact_path(lang, exec_dir@, exec_name@),
        plan.commands.deep_view() == spec_build_commands(
            lang,
            code_path@,
            plan.artifact_path@,
        ),
{
    let mut with_ext = String::from_str(exec_name);
    with_ext.append(".");
    match lang {
        RunLang::Python => with_ext.append("py"),
        RunLang::Java => with_ext.append("jar"),
        _ => with_ext.append("exe"),
    }
    let artifact = join_path(exec_dir, with_ext.as_str());
    let mut commands: Vec<BuildCmd> = Vec::new();
    match lang {
        RunLang::C | RunLang::Cpp => {
            let mut args: Vec<String> = Vec::new();
            push_str_arg(&mut args, code_path);
            push_str_arg(&mut args, "-o");
            push_str_arg(&mut args, artifact.as_str());
            push_str_arg(&mut args, "-O2");
            push_str_arg(&mut args, "-Wall");
            push_str_arg(&mut args, "-lm");
            push_str_arg(&mut args, "-static");
            let compiler = if matches!(lang, RunLang::C) {
                push_str_arg(&mut args, "-std=gnu11");
                "gcc"
            } else {
                push_str_arg(&mut args, "-std=gnu++17");
                "g++"
            };
            commands.push(BuildCmd { program: String::from_str(compiler), args });
            proof {
                let sc = spec_build_commands(lang, code_path@, artifact@);
                assert(commands.deep_view()[0].1 =~= sc[0].1);
                assert(commands.deep_view()[0].0 == sc[0].0);
                assert(commands.deep_view() =~= sc);
            }
        },
        RunLang::Python => {
            let mut args: Vec<String> = Vec::new();
            push_str_arg(&mut args, code_path);
            push_str_arg(&mut args, artifact.as_str());
            commands.push(BuildCmd { program: String::from_str("cp"), args });
            proof {
                let sc = spec_build_commands(lang, code_path@, artifact@);
                assert(commands.deep_view()[0].1 =~= sc[0].1);
                assert(commands.deep_view()[0].0 == sc[0].0);
                assert(commands.deep_view() =~= sc);
            }
        },
        RunLang::Java => {
            let mut cargs: Vec<String> = Vec::new();
            push_str_arg(&mut cargs, "-encoding");
            push_str_arg(&mut cargs, "utf-8");
            push_str_arg(&mut cargs, code_path);
            commands.push(BuildCmd { program: String::from_str("javac"), args: cargs });
            let code_dir = dir_of(code_path);
            let mut shell = String::from_str("cd ");
            shell.append(code_dir.as_str());
            shell.append(" && jar -cf ");
            shell.append(artifact.as_str());
            shell.append(" *.class && rm *.class");
            let ghost shell_v = shell@;
            let mut jargs: Vec<String> = Vec::new();
            push_str_arg(&mut jargs, "-c");
            let ghost ja1 = jargs.deep_view();
            proof {
                assert(ja1[0] == "-c"@);
            }
            jargs.push(shell);
            proof {
                assert(jargs.deep_view().len() == 2);
                assert(jargs.deep_view()[0] == ja1[0]);
                assert(jargs.deep_view()[1] == shell_v);
            }
            commands.push(BuildCmd { program: String::from_str("bash"), args: jargs });
            proof {
                let sc = spec_build_commands(lang, code_path@, artifact@);
                assert(commands.deep_view()[0].1 =~= sc[0].1);
                assert(commands.deep_view()[0].0 == sc[0].0);
                assert(shell_v =~= sc[1].1[1]);
                assert(commands.deep_view()[1].1.len() == 2);
                assert(commands.deep_view()[1].1[0] == "-c"@);
                assert(commands.deep_view()[1].1[1] == shell_v);
                assert(commands.deep_view()[1].1 =~= sc[1].1);
                assert(commands.deep_view()[1].0 == sc[1].0);
                assert(commands.deep_view() =~= sc);
            }
        },
        RunLang::Go => {
            let mut args: Vec<String> = Vec::new();
            push_str_arg(&mut args, "build");
            push_str_arg(&mut args, "-o");
            push_str_arg(&mut args, artifact.as_str());
            push_str_arg(&mut args, code_path);
            commands.push(BuildCmd { program: String::from_str("go"), args });
            proof {
                let sc = spec_build_commands(lang, code_path@, artifact@);
                assert(commands.deep_view()[0].1 =~= sc[0].1);
                assert(commands.deep_view()[0].0 == sc[0].0);
                assert(commands.deep_view() =~= sc);
            }
        },
        RunLang::Rust => {
            let mut args: Vec<String> = Vec::new();
            push_str_arg(&mut args, "--edition");
            push_str_arg(&mut args, "2021");
            push_str_arg(&mut args, "-O");
            push_str_arg(&mut args, "-o");
            push_str_arg(&mut args, artifact.as_str());
            push_str_arg(&mut args, code_path);
            commands.push(BuildCmd { program: String::from_str("rustc"), args });
            proof {
                let sc = spec_build_commands(lang, code_path@, artifact@);
                assert(commands.deep_view()[0].1 =~= sc[0].1);
                assert(commands.deep_view()[0].0 == sc[0].0);
                assert(commands.deep_view() =~= sc);
            }
        },
    }
    BuildPlan { commands, artifact_path: artifact }
}

/// Decides the outcome of a build step once its commands have run:
/// the artifact's observed presence at the planned path yields the artifact
/// handle, its absence the `BuildFailed` error — never a silent handle to a
/// missing file.
pub fn finish_build(lang: RunLang, artifact_path: String, artifact_exists: bool) -> (r: Result<
    ExecutableArtifact,
    CmpError,
>)
    ensures
        artifact_exists ==> r is Ok && r->Ok_0.lang == lang
            && r->Ok_0.path == artifact_path,
        !artifact_exists ==> r is Err && r->Err_0 == CmpError::BuildFailed,
{
    if artifact_exists {
        Ok(ExecutableArtifact { lang, path: artifact_path })
    } else {
        Err(CmpError::BuildFailed)
    }
}

} // verus!
