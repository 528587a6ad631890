//! Turning a compile command of a build into one that writes assembly
//! text instead of an object file.
use vstd::prelude::*;

verus! {

/// One entry of a build's list of compile commands.
#[derive(Debug, Clone, PartialEq, Eq)]
pub struct CMakeCompileCommand {
    /// The directory in which the command runs.
    pub directory: String,
    /// The command as one line of shell text.
    pub command: String,
    /// The path of the object that the command writes.
    pub output: String,
}

/// A command that makes the compiler write assembly text.
#[derive(Debug, Clone, PartialEq, Eq)]
pub struct AssemblyGenerationCommand {
    /// The program to run.
    pub program: String,
    /// The program's arguments.
    pub args: Vec<String>,
    /// The directory in which the command runs.
    pub cwd: String,
    /// The path of the file that will hold the assembly text.
    pub output: String,
}

/// Why a compile command could not be adapted.
#[derive(Debug, Clone, Copy, PartialEq, Eq, Structural)]
pub enum CommandError {
    /// The command line is not well-formed shell text.
    Unsplittable,
    /// The command has no `-o` argument.
    NoOutputFlag,
    /// Nothing follows the `-o` argument.
    NoOutputPath,
}

/// The words into which `shlex::split` breaks a command line by the rules
/// of a POSIX shell, or `None` if the line is erroneous.
pub uninterp spec fn shell_words(command: Seq<char>) -> Option<Seq<Seq<char>>>;

/// The texts of a list of words.
pub open spec fn texts(words: Seq<String>) -> Seq<Seq<char>> {
    words.map_values(|w: String| w@)
}

/// `shlex::split` is a function of the command line alone; `shell_words`
/// names its result.
#[verifier::external_body]
fn split_words(command: &str) -> (words: Option<Vec<String>>)
    ensures
        match words {
            Some(w) => shell_words(command@) == Some(texts(w@)),
            None => shell_words(command@) is None,
        },
{
    shlex::split(command)
}

/// The text of the path that `Path::join` makes of a directory and a file
/// name, on the platform that the library is built for.
pub uninterp spec fn joined_path(directory: Seq<char>, file: Seq<char>) -> Seq<char>;

/// The text of the path that `PathBuf::set_extension` makes of a path and
/// an extension, on the platform that the library is built for.
pub uninterp spec fn path_with_extension(path: Seq<char>, extension: Seq<char>) -> Seq<char>;

/// `Path::join` of a directory and a file name, both given and returned
/// as text. The result is a function of the two texts; `joined_path`
/// names it.
#[verifier::external_body]
fn join_path(directory: &str, file: &str) -> (path: String)
    ensures
        path@ == joined_path(directory@, file@),
{
    std::path::Path::new(directory).join(file).to_string_lossy().into_owned()
}

/// `PathBuf::set_extension` on a path given and returned as text. The
/// call panics on an extension that holds a path separator, so none may
/// be handed in. The result is a function of the two texts;
/// `path_with_extension` names it.
#[verifier::external_body]
fn with_extension(path: &str, extension: &str) -> (out: String)
    requires
        !extension@.contains('/'),
        !extension@.contains('\\'),
    ensures
        out@ == path_with_extension(path@, extension@),
{
    let mut out = std::path::PathBuf::from(path);
    out.set_extension(extension);
    out.to_string_lossy().into_owned()
}

/// The path of the file that holds the assembly text for the object
/// `file` of a command that runs in `directory`: the file taken relative
/// to the directory, with the extension `txt`.
pub open spec fn assembly_path(directory: Seq<char>, file: Seq<char>) -> Seq<char> {
    path_with_extension(joined_path(directory, file), "txt"@)
}

/// What an adapted command holds, as texts.
pub struct Adapted {
    pub program: Seq<char>,
    pub args: Seq<Seq<char>>,
    pub cwd: Seq<char>,
    pub output: Seq<char>,
}

impl View for AssemblyGenerationCommand {
    type V = Adapted;

    open spec fn view(&self) -> Adapted {
        Adapted {
            program: self.program@,
            args: texts(self.args@),
            cwd: self.cwd@,
            output: self.output@,
        }
    }
}

/// Position of the first `-o` among the words.
pub open spec fn output_flag(words: Seq<Seq<char>>) -> Option<int> {
    words.index_of_first("-o"@)
}

/// The words of the adapted command: the word after the `-o` at `at` is
/// replaced by `path`, and `-S` is put before the `-o`.
pub open spec fn adapted_words(words: Seq<Seq<char>>, at: int, path: Seq<char>) -> Seq<Seq<char>> {
    words.update(at + 1, path).insert(at, "-S"@)
}

/// The command that writes assembly text to `path`, made of the words of
/// a compile command whose `-o` stands at `at`: the first of the adapted
/// words is the program, the others are its arguments.
pub open spec fn rewritten(
    words: Seq<Seq<char>>,
    at: int,
    path: Seq<char>,
    directory: Seq<char>,
) -> Adapted {
    let all = adapted_words(words, at, path);
    Adapted { program: all[0], args: all.skip(1), cwd: directory, output: path }
}

/// What adapting a compile command gives: the words of the command line
/// are rewritten around the first `-o`, and the word after it names the
/// object whose assembly path is taken. A command line that cannot be
/// split, has no `-o`, or has nothing after the `-o` is rejected.
pub open spec fn adaptation(directory: Seq<char>, command: Seq<char>) -> Result<
    Adapted,
    CommandError,
> {
    match shell_words(command) {
        None => Err(CommandError::Unsplittable),
        Some(words) => match output_flag(words) {
            None => Err(CommandError::NoOutputFlag),
            Some(at) => if at + 1 < words.len() {
                Ok(rewritten(words, at, assembly_path(directory, words[at + 1]), directory))
            } else {
                Err(CommandError::NoOutputPath)
            },
        },
    }
}

/// Finds the first `-o` among the words.
pub fn find_output_flag(words: &Vec<String>) -> (found: Option<usize>)
    ensures
        match found {
            Some(at) => at < words.len() && output_flag(texts(words@)) == Some(at as int),
            None => output_flag(texts(words@)) is None,
        },
{
    let flag = "-o".to_owned();
    let mut i: usize = 0;
    while i < words.len()
        invariant
            i <= words.len(),
            flag@ == "-o"@,
            forall|k: int| 0 <= k < i ==> texts(words@)[k] != "-o"@,
        decreases words.len() - i,
    {
        if words[i] == flag {
            proof {
                assert(texts(words@)[i as int] == "-o"@);
                texts(words@).index_of_first_ensures("-o"@);
            }
            return Some(i);
        }
        i += 1;
    }
    proof {
        texts(words@).index_of_first_ensures("-o"@);
    }
    None
}

/// Builds the command that writes assembly text to `path`: of the words
/// of the compile command, the one after the `-o` at `at` becomes `path`,
/// and `-S` is put before the `-o`; the first word is then the program,
/// the others are its arguments. Fails if no word follows the one at `at`.
pub fn rewrite_command(words: Vec<String>, at: usize, path: String, directory: String) -> (out:
    Result<AssemblyGenerationCommand, CommandError>)
    ensures
        match out {
            Ok(cmd) => at + 1 < words.len() && cmd@ == rewritten(
                texts(words@),
                at as int,
                path@,
                directory@,
            ),
            Err(e) => at + 1 >= words.len() && e == CommandError::NoOutputPath,
        },
{
    if at >= words.len() || at + 1 >= words.len() {
        return Err(CommandError::NoOutputPath);
    }
    let mut args = words;
    let output = path.clone();
    args[at + 1] = path;
    args.insert(at, "-S".to_owned());
    let program = args.remove(0);
    proof {
        assert(texts(args@) =~= adapted_words(texts(words@), at as int, path@).skip(1));
    }
    Ok(AssemblyGenerationCommand { program, args, cwd: directory, output })
}

/// The path of the file that holds the assembly text for the object
/// `file` of a command that runs in `directory`.
pub fn assembly_file_path(directory: &str, file: &str) -> (path: String)
    ensures
        path@ == assembly_path(directory@, file@),
{
    let joined = join_path(directory, file);
    proof {
        reveal_strlit("txt");
        assert(forall|i: int| 0 <= i < "txt"@.len() ==> "txt"@[i] != '/' && "txt"@[i] != '\\');
    }
    with_extension(joined.as_str(), "txt")
}

/// Adapts a compile command so that it writes assembly text: the output
/// named after the first `-o` is taken relative to the command's
/// directory and given the extension `txt`, and `-S` is put before the
/// `-o`. Fails if the command line cannot be split into words, if it has
/// no `-o`, or if nothing follows the `-o`.
pub fn adapt_cmake_command_to_generate_assembly(command: &CMakeCompileCommand) -> (out: Result<
    AssemblyGenerationCommand,
    CommandError,
>)
    ensures
        match out {
            Ok(cmd) => adaptation(command.directory@, command.command@) == Ok::<
                Adapted,
                CommandError,
            >(cmd@),
            Err(e) => adaptation(command.directory@, command.command@) == Err::<
                Adapted,
                CommandError,
            >(e),
        },
{
    let words = match split_words(command.command.as_str()) {
        Some(words) => words,
        None => return Err(CommandError::Unsplittable),
    };
    let at = match find_output_flag(&words) {
        Some(at) => at,
        None => return Err(CommandError::NoOutputFlag),
    };
    if at + 1 >= words.len() {
        return Err(CommandError::NoOutputPath);
    }
    let path = assembly_file_path(command.directory.as_str(), words[at + 1].as_str());
    rewrite_command(words, at, path, command.directory.clone())
}

} // verus!
