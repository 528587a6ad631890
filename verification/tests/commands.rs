use asm_callgraph::command::{
    adapt_cmake_command_to_generate_assembly, assembly_file_path, find_output_flag,
    rewrite_command, AssemblyGenerationCommand, CMakeCompileCommand, CommandError,
};

fn command(directory: &str, line: &str) -> CMakeCompileCommand {
    CMakeCompileCommand {
        directory: directory.to_owned(),
        command: line.to_owned(),
        output: "unused.o".to_owned(),
    }
}

fn words(list: &[&str]) -> Vec<String> {
    list.iter().map(|w| w.to_string()).collect()
}

#[test]
fn compile_command_is_adapted() {
    let adapted = adapt_cmake_command_to_generate_assembly(&command(
        "/build",
        "/usr/bin/c++ -DFOO \"-I/some dir/include\" -o CMakeFiles/x.dir/field.cc.o -c '/src/field.cc'",
    ));
    assert_eq!(
        adapted,
        Ok(AssemblyGenerationCommand {
            program: "/usr/bin/c++".to_owned(),
            args: words(&[
                "-DFOO",
                "-I/some dir/include",
                "-S",
                "-o",
                "/build/CMakeFiles/x.dir/field.cc.txt",
                "-c",
                "/src/field.cc",
            ]),
            cwd: "/build".to_owned(),
            output: "/build/CMakeFiles/x.dir/field.cc.txt".to_owned(),
        })
    );
}

#[test]
fn only_the_first_output_flag_counts() {
    let adapted =
        adapt_cmake_command_to_generate_assembly(&command("/b", "cc -o a.o -o b.o")).unwrap();
    assert_eq!(adapted.program, "cc");
    assert_eq!(adapted.args, words(&["-S", "-o", "/b/a.txt", "-o", "b.o"]));
    assert_eq!(adapted.output, "/b/a.txt");
    assert_eq!(adapted.cwd, "/b");
}

#[test]
fn output_flag_in_front_makes_the_added_flag_the_program() {
    let adapted = adapt_cmake_command_to_generate_assembly(&command("/b", "-o x.o")).unwrap();
    assert_eq!(adapted.program, "-S");
    assert_eq!(adapted.args, words(&["-o", "/b/x.txt"]));
}

#[test]
fn command_that_cannot_be_split_is_rejected() {
    assert_eq!(
        adapt_cmake_command_to_generate_assembly(&command("/b", "cc -o \"a.o")),
        Err(CommandError::Unsplittable)
    );
}

#[test]
fn command_without_output_flag_is_rejected() {
    assert_eq!(
        adapt_cmake_command_to_generate_assembly(&command("/b", "cc -c a.c '-o a.o' -ofile")),
        Err(CommandError::NoOutputFlag)
    );
    assert_eq!(
        adapt_cmake_command_to_generate_assembly(&command("/b", "")),
        Err(CommandError::NoOutputFlag)
    );
}

#[test]
fn output_flag_without_path_is_rejected() {
    assert_eq!(
        adapt_cmake_command_to_generate_assembly(&command("/b", "cc -c a.c -o")),
        Err(CommandError::NoOutputPath)
    );
}

#[test]
fn first_output_flag_is_found() {
    assert_eq!(find_output_flag(&words(&["cc", "-c", "-o", "x", "-o"])), Some(2));
    assert_eq!(find_output_flag(&words(&["-o"])), Some(0));
    assert_eq!(find_output_flag(&words(&["cc", "-O", "-o2", " -o"])), None);
    assert_eq!(find_output_flag(&words(&[])), None);
}

#[test]
fn words_are_rewritten_around_the_output_flag() {
    let out = rewrite_command(
        words(&["cc", "-c", "a.c", "-o", "a.o", "-g"]),
        3,
        "/tmp/a.txt".to_owned(),
        "/work".to_owned(),
    )
    .unwrap();
    assert_eq!(out.program, "cc");
    assert_eq!(out.args, words(&["-c", "a.c", "-S", "-o", "/tmp/a.txt", "-g"]));
    assert_eq!(out.cwd, "/work");
    assert_eq!(out.output, "/tmp/a.txt");
}

#[test]
fn rewriting_needs_a_word_after_the_flag() {
    let rewrite = |list: &[&str], at: usize| {
        rewrite_command(words(list), at, "p".to_owned(), "d".to_owned())
    };
    assert_eq!(rewrite(&["cc", "-o"], 1), Err(CommandError::NoOutputPath));
    assert_eq!(rewrite(&["cc", "-o"], 2), Err(CommandError::NoOutputPath));
    assert_eq!(rewrite(&[], 0), Err(CommandError::NoOutputPath));
    assert_eq!(rewrite(&["cc"], usize::MAX), Err(CommandError::NoOutputPath));
    assert!(rewrite(&["cc", "-o"], 0).is_ok());
}

#[test]
fn assembly_file_stands_in_the_directory_with_the_extension_txt() {
    assert_eq!(
        assembly_file_path("/build", "CMakeFiles/x.dir/field.cc.o"),
        "/build/CMakeFiles/x.dir/field.cc.txt"
    );
    assert_eq!(assembly_file_path("/build/", "a.o"), "/build/a.txt");
    assert_eq!(assembly_file_path("/build", "a"), "/build/a.txt");
    assert_eq!(assembly_file_path("build", "sub/a.b.c"), "build/sub/a.b.txt");
    assert_eq!(assembly_file_path("", "a.o"), "a.txt");
}

#[test]
fn absolute_output_replaces_the_directory() {
    assert_eq!(assembly_file_path("/build", "/abs/a.o"), "/abs/a.txt");
    let adapted =
        adapt_cmake_command_to_generate_assembly(&command("/b", "cc -o /tmp/out/x.o")).unwrap();
    assert_eq!(adapted.output, "/tmp/out/x.txt");
    assert_eq!(adapted.args, words(&["-S", "-o", "/tmp/out/x.txt"]));
}

#[test]
fn output_without_a_file_name_keeps_its_path() {
    assert_eq!(assembly_file_path("/build", ".."), "/build/..");
    assert_eq!(assembly_file_path("/", ""), "/");
}
