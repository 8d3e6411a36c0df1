use comparer_rust::compile::{build_plan, dir_of, finish_build, join_path};
use comparer_rust::lang::{source_file_name, CmpError, RunLang};

#[test]
fn c_build_is_one_gcc_call() {
    let plan = build_plan(RunLang::C, "/w/cr/main.c", "/w/cr", "cr");
    assert_eq!(plan.artifact_path, "/w/cr/cr.exe");
    assert_eq!(plan.commands.len(), 1);
    assert_eq!(plan.commands[0].program, "gcc");
    assert_eq!(
        plan.commands[0].args,
        vec!["/w/cr/main.c", "-o", "/w/cr/cr.exe", "-O2", "-Wall", "-lm", "-static",
            "-std=gnu11"]
    );
}

#[test]
fn cpp_build_uses_its_own_standard() {
    let plan = build_plan(RunLang::Cpp, "/w/wr/main.cpp", "/w/wr/", "wr");
    assert_eq!(plan.artifact_path, "/w/wr/wr.exe");
    assert_eq!(plan.commands[0].program, "g++");
    assert_eq!(plan.commands[0].args[7], "-std=gnu++17");
}

#[test]
fn python_build_copies_the_script() {
    let plan = build_plan(RunLang::Python, "/w/cr/main.py", "/w/cr", "cr");
    assert_eq!(plan.artifact_path, "/w/cr/cr.py");
    assert_eq!(plan.commands.len(), 1);
    assert_eq!(plan.commands[0].program, "cp");
    assert_eq!(plan.commands[0].args, vec!["/w/cr/main.py", "/w/cr/cr.py"]);
}

#[test]
fn java_build_compiles_then_archives() {
    let plan = build_plan(RunLang::Java, "/w/cr/Main.java", "/w/cr", "cr");
    assert_eq!(plan.artifact_path, "/w/cr/cr.jar");
    assert_eq!(plan.commands.len(), 2);
    assert_eq!(plan.commands[0].program, "javac");
    assert_eq!(plan.commands[0].args, vec!["-encoding", "utf-8", "/w/cr/Main.java"]);
    assert_eq!(plan.commands[1].program, "bash");
    assert_eq!(plan.commands[1].args[0], "-c");
    assert_eq!(
        plan.commands[1].args[1],
        "cd /w/cr && jar -cf /w/cr/cr.jar *.class && rm *.class"
    );
}

#[test]
fn go_and_rust_builds_name_their_tools() {
    let go = build_plan(RunLang::Go, "/w/main.go", "/w", "cr");
    assert_eq!(go.commands[0].program, "go");
    assert_eq!(go.commands[0].args, vec!["build", "-o", "/w/cr.exe", "/w/main.go"]);
    let rust = build_plan(RunLang::Rust, "/w/main.rs", "/w", "cr");
    assert_eq!(rust.commands[0].program, "rustc");
    assert_eq!(
        rust.commands[0].args,
        vec!["--edition", "2021", "-O", "-o", "/w/cr.exe", "/w/main.rs"]
    );
}

#[test]
fn missing_artifact_is_a_build_failure() {
    let r = finish_build(RunLang::C, "/w/cr/cr.exe".to_string(), false);
    assert_eq!(r.err(), Some(CmpError::BuildFailed));
}

#[test]
fn present_artifact_is_handed_out() {
    let r = finish_build(RunLang::Go, "/w/cr/cr.exe".to_string(), true);
    let artifact = r.ok().unwrap();
    assert_eq!(artifact.lang, RunLang::Go);
    assert_eq!(artifact.path, "/w/cr/cr.exe");
}

#[test]
fn path_helpers_join_and_split() {
    assert_eq!(join_path("/a/b", "c.txt"), "/a/b/c.txt");
    assert_eq!(join_path("/a/b/", "c.txt"), "/a/b/c.txt");
    assert_eq!(join_path("", "c.txt"), "c.txt");
    assert_eq!(dir_of("/a/b/c.txt"), "/a/b");
    assert_eq!(dir_of("c.txt"), "");
}

#[test]
fn source_file_names_per_language() {
    assert_eq!(source_file_name(RunLang::C), "main.c");
    assert_eq!(source_file_name(RunLang::Cpp), "main.cpp");
    assert_eq!(source_file_name(RunLang::Python), "main.py");
    assert_eq!(source_file_name(RunLang::Java), "Main.java");
    assert_eq!(source_file_name(RunLang::Go), "main.go");
    assert_eq!(source_file_name(RunLang::Rust), "main.rs");
}
