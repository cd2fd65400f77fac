use vstd::prelude::*;
use crate::text::{first_index, lemma_first_index, str_equals, find_char_from};

verus! {

// ---------------------------------------------------------------------------
// Words of the command line
// ---------------------------------------------------------------------------

/// The argument that separates options from the values that follow them.
pub open spec fn separator() -> Seq<char> {
    seq!['-', '-']
}

pub open spec fn word_build() -> Seq<char> {
    seq!['b', 'u', 'i', 'l', 'd']
}

pub open spec fn word_run() -> Seq<char> {
    seq!['r', 'u', 'n']
}

pub open spec fn word_run_from() -> Seq<char> {
    seq!['r', 'u', 'n', '-', 'f', 'r', 'o', 'm']
}

pub open spec fn word_help() -> Seq<char> {
    seq!['h', 'e', 'l', 'p']
}

pub open spec fn word_exe_path_file() -> Seq<char> {
    seq!['e', 'x', 'e', '-', 'p', 'a', 't', 'h', '-', 'f', 'i', 'l', 'e']
}

pub open spec fn short_help_flag() -> Seq<char> {
    seq!['-', 'h']
}

pub open spec fn long_help_flag() -> Seq<char> {
    seq!['-', '-', 'h', 'e', 'l', 'p']
}

pub open spec fn short_version_flag() -> Seq<char> {
    seq!['-', 'V']
}

pub open spec fn long_version_flag() -> Seq<char> {
    seq!['-', '-', 'v', 'e', 'r', 's', 'i', 'o', 'n']
}

/// `--name` or `--name=value`, with a non-empty remainder after the dashes.
pub open spec fn is_long(a: Seq<char>) -> bool {
    a.len() > 2 && a[0] == '-' && a[1] == '-'
}

/// The name of a long flag: what lies between `--` and the first `=`.
pub open spec fn long_name(a: Seq<char>) -> Seq<char> {
    a.skip(2).take(first_index(a.skip(2), '=') as int)
}

/// The value attached to a long flag with `=`, if any.
pub open spec fn long_value(a: Seq<char>) -> Option<Seq<char>> {
    let body = a.skip(2);
    let k = first_index(body, '=') as int;
    if k < body.len() {
        Some(body.skip(k + 1))
    } else {
        None
    }
}

/// `-x...`: a dash followed by at least one character that is not a dash.
pub open spec fn is_short(a: Seq<char>) -> bool {
    a.len() > 1 && a[0] == '-' && a[1] != '-'
}

/// A cluster of short flags made of `h` alone (`-h`, `-hh`, ...).
pub open spec fn is_help_cluster(a: Seq<char>) -> bool {
    is_short(a) && forall|i: int| 1 <= i < a.len() ==> a[i] == 'h'
}

// ---------------------------------------------------------------------------
// Splitting build options from program arguments
// ---------------------------------------------------------------------------

/// The build options and program arguments carried by `args`: everything before
/// the first `--`, and everything after it.
pub open spec fn spec_split_args(args: Seq<Seq<char>>) -> (Seq<Seq<char>>, Seq<Seq<char>>) {
    let k = first_index(args, separator()) as int;
    if k < args.len() {
        (args.take(k), args.skip(k + 1))
    } else {
        (args, Seq::empty())
    }
}

/// Whether `a` is exactly `--`.
pub fn is_separator(a: &str) -> (b: bool)
    ensures
        b == (a@ == separator()),
{
    if a.unicode_len() != 2 {
        return false;
    }
    let c0 = a.get_char(0);
    let c1 = a.get_char(1);
    let r = c0 == '-' && c1 == '-';
    proof {
        if r {
            assert(a@ =~= separator());
        }
    }
    r
}

/// Splits `args` at the first `--` into build options and program arguments;
/// the first `--` itself belongs to neither, any later one is a program argument.
pub fn split_args(args: Vec<String>) -> (result: (Vec<String>, Vec<String>))
    ensures
        (result.0.deep_view(), result.1.deep_view()) == spec_split_args(args.deep_view()),
        !result.0.deep_view().contains(separator()),
        args.deep_view().contains(separator()) ==> args.deep_view() == result.0.deep_view()
            + seq![separator()] + result.1.deep_view(),
        !args.deep_view().contains(separator()) ==> result.0.deep_view() == args.deep_view()
            && result.1.deep_view().len() == 0,
{
    let ghost all = args.deep_view();
    proof {
        lemma_first_index(all, separator());
    }
    let ghost k = first_index(all, separator()) as int;
    let mut build_args: Vec<String> = Vec::new();
    let mut run_args: Vec<String> = Vec::new();
    let mut is_run_arg = false;
    let n = args.len();
    let mut i: usize = 0;
    while i < n
        invariant
            n == args.len(),
            all == args.deep_view(),
            0 <= i <= n,
            k == first_index(all, separator()),
            k <= all.len(),
            forall|j: int| 0 <= j < k ==> all[j] != separator(),
            k < all.len() ==> all[k] == separator(),
            is_run_arg <==> k < i,
            !is_run_arg ==> build_args.deep_view() == all.take(i as int) && run_args.deep_view()
                == Seq::<Seq<char>>::empty(),
            is_run_arg ==> build_args.deep_view() == all.take(k) && run_args.deep_view()
                == all.subrange(k + 1, i as int),
        decreases n - i,
    {
        let arg = &args[i];
        assert(arg@ == all[i as int]);
        if !is_run_arg && is_separator(arg.as_str()) {
            is_run_arg = true;
            assert(i as int == k);
            assert(all.subrange(k + 1, i + 1) =~= Seq::<Seq<char>>::empty());
        } else if is_run_arg {
            let ghost before = run_args.deep_view();
            run_args.push(arg.clone());
            assert(run_args.deep_view() =~= before.push(all[i as int]));
            assert(all.subrange(k + 1, i + 1) =~= all.subrange(k + 1, i as int).push(all[i as int]));
        } else {
            let ghost before = build_args.deep_view();
            build_args.push(arg.clone());
            assert(build_args.deep_view() =~= before.push(all[i as int]));
            assert(all.take(i + 1) =~= all.take(i as int).push(all[i as int]));
        }
        i = i + 1;
    }
    proof {
        if k < all.len() {
            assert(all.subrange(k + 1, all.len() as int) =~= all.skip(k + 1));
            assert(all =~= all.take(k) + seq![separator()] + all.skip(k + 1));
        } else {
            assert(all.take(all.len() as int) =~= all);
        }
        let b = build_args.deep_view();
        if b.contains(separator()) {
            let j = choose|j: int| 0 <= j < b.len() && b[j] == separator();
            assert(b[j] == all[j]);
        }
    }
    (build_args, run_args)
}


// ---------------------------------------------------------------------------
// The command line as a value
// ---------------------------------------------------------------------------

/// The three subcommands.
#[derive(Debug, Clone, Copy, PartialEq, Eq, Structural)]
pub enum Subcommand {
    Build,
    Run,
    RunFrom,
}

/// What a parsed command line means, over plain sequences.
pub enum CommandModel {
    Build { exe_path_file: Seq<char>, build_args: Seq<Seq<char>> },
    Run { build_args: Seq<Seq<char>>, run_args: Seq<Seq<char>> },
    RunFrom { exe_path_file: Seq<char>, run_args: Seq<Seq<char>> },
}

/// A parsed command line.
#[derive(Debug, PartialEq, Eq)]
pub enum CliCommand {
    /// Build, copy, and record the copy's path in `exe_path_file`.
    Build { exe_path_file: String, build_args: Vec<String> },
    /// Build, copy, and run the copy.
    Run { build_args: Vec<String>, run_args: Vec<String> },
    /// Run the executable whose path `exe_path_file` holds.
    RunFrom { exe_path_file: String, run_args: Vec<String> },
}

impl View for CliCommand {
    type V = CommandModel;

    open spec fn view(&self) -> CommandModel {
        match self {
            CliCommand::Build { exe_path_file, build_args } => CommandModel::Build {
                exe_path_file: exe_path_file@,
                build_args: build_args.deep_view(),
            },
            CliCommand::Run { build_args, run_args } => CommandModel::Run {
                build_args: build_args.deep_view(),
                run_args: run_args.deep_view(),
            },
            CliCommand::RunFrom { exe_path_file, run_args } => CommandModel::RunFrom {
                exe_path_file: exe_path_file@,
                run_args: run_args.deep_view(),
            },
        }
    }
}

/// Why a command line was not turned into a command, over plain sequences.
pub enum ErrorModel {
    DisplayHelp { command: Option<Subcommand>, long: bool },
    DisplayVersion { long: bool },
    UnknownArgument { subcommand: Subcommand, argument: Seq<char> },
    UnexpectedValue { subcommand: Subcommand, value: Seq<char> },
    EmptyValue { subcommand: Subcommand },
    ArgumentConflict { subcommand: Subcommand },
    MissingExePathFile { subcommand: Subcommand },
}

/// Why a command line was not turned into a command.
#[derive(Debug, PartialEq, Eq)]
pub enum CliError {
    /// Help was asked for (`-h` or `--help`); `command` is `None` for the
    /// top-level help; `long` tells `--help` from `-h`.
    DisplayHelp { command: Option<Subcommand>, long: bool },
    /// The version was asked for (`-V` or `--version`).
    DisplayVersion { long: bool },
    /// A flag that the subcommand does not know, or a value where none is expected.
    UnknownArgument { subcommand: Subcommand, argument: String },
    /// `--help=VALUE`: the help flag takes no value.
    UnexpectedValue { subcommand: Subcommand, value: String },
    /// `--exe-path-file` without a value, or with an empty one.
    EmptyValue { subcommand: Subcommand },
    /// `--exe-path-file` given more than once.
    ArgumentConflict { subcommand: Subcommand },
    /// `--exe-path-file` missing.
    MissingExePathFile { subcommand: Subcommand },
}

impl View for CliError {
    type V = ErrorModel;

    open spec fn view(&self) -> ErrorModel {
        match self {
            CliError::DisplayHelp { command, long } => ErrorModel::DisplayHelp {
                command: *command,
                long: *long,
            },
            CliError::DisplayVersion { long } => ErrorModel::DisplayVersion { long: *long },
            CliError::UnknownArgument { subcommand, argument } => ErrorModel::UnknownArgument {
                subcommand: *subcommand,
                argument: argument@,
            },
            CliError::UnexpectedValue { subcommand, value } => ErrorModel::UnexpectedValue {
                subcommand: *subcommand,
                value: value@,
            },
            CliError::EmptyValue { subcommand } => ErrorModel::EmptyValue { subcommand: *subcommand },
            CliError::ArgumentConflict { subcommand } => ErrorModel::ArgumentConflict {
                subcommand: *subcommand,
            },
            CliError::MissingExePathFile { subcommand } => ErrorModel::MissingExePathFile {
                subcommand: *subcommand,
            },
        }
    }
}

pub open spec fn result_model(r: Result<CliCommand, CliError>) -> Result<CommandModel, ErrorModel> {
    match r {
        Ok(c) => Ok(c@),
        Err(e) => Err(e@),
    }
}

// ---------------------------------------------------------------------------
// `build` and `run-from`: `--exe-path-file <PATH>` then `-- <ARGS>...`
// ---------------------------------------------------------------------------

/// Progress through the arguments of `build` or `run-from`: the path taken so
/// far, an occurrence of `--exe-path-file` whose value is not yet checked
/// (`Some(None)` while its value is still awaited), whether `--` was passed, and
/// the values after it.
pub struct ExeArgsModel {
    pub exe_path_file: Option<Seq<char>>,
    pub pending: Option<Option<Seq<char>>>,
    pub trailing: bool,
    pub positional: Seq<Seq<char>>,
}

pub open spec fn initial_exe_args() -> ExeArgsModel {
    ExeArgsModel { exe_path_file: None, pending: None, trailing: false, positional: Seq::empty() }
}

/// Settles a pending `--exe-path-file`: it needs a non-empty value and may
/// occur only once.
pub open spec fn spec_resolve(sub: Subcommand, s: ExeArgsModel) -> Result<ExeArgsModel, ErrorModel> {
    match s.pending {
        None => Ok(s),
        Some(None) => Err(ErrorModel::EmptyValue { subcommand: sub }),
        Some(Some(v)) => if s.exe_path_file is Some {
            Err(ErrorModel::ArgumentConflict { subcommand: sub })
        } else if v.len() == 0 {
            Err(ErrorModel::EmptyValue { subcommand: sub })
        } else {
            Ok(ExeArgsModel { exe_path_file: Some(v), pending: None, ..s })
        },
    }
}

/// What one argument does to the progress.
pub open spec fn spec_step(sub: Subcommand, s: ExeArgsModel, a: Seq<char>) -> Result<ExeArgsModel, ErrorModel> {
    if s.trailing {
        match spec_resolve(sub, s) {
            Ok(t) => Ok(ExeArgsModel { positional: t.positional.push(a), ..t }),
            Err(e) => Err(e),
        }
    } else if a == separator() {
        Ok(ExeArgsModel { trailing: true, ..s })
    } else if is_long(a) {
        let name = long_name(a);
        if name == word_exe_path_file() {
            match spec_resolve(sub, s) {
                Err(e) => Err(e),
                Ok(t) => match long_value(a) {
                    Some(v) => spec_resolve(sub, ExeArgsModel { pending: Some(Some(v)), ..t }),
                    None => Ok(ExeArgsModel { pending: Some(None), ..t }),
                },
            }
        } else if name == word_help() {
            match long_value(a) {
                Some(v) => Err(ErrorModel::UnexpectedValue { subcommand: sub, value: v }),
                None => match spec_resolve(sub, s) {
                    Err(e) => Err(e),
                    Ok(_) => Err(ErrorModel::DisplayHelp { command: Some(sub), long: true }),
                },
            }
        } else {
            Err(ErrorModel::UnknownArgument { subcommand: sub, argument: a.take((2 + name.len()) as int) })
        }
    } else if is_short(a) {
        if a[1] == 'h' {
            match spec_resolve(sub, s) {
                Err(e) => Err(e),
                Ok(_) => Err(ErrorModel::DisplayHelp { command: Some(sub), long: false }),
            }
        } else {
            Err(ErrorModel::UnknownArgument { subcommand: sub, argument: a.take(2) })
        }
    } else if s.pending == Some(None::<Seq<char>>) {
        Ok(ExeArgsModel { pending: Some(Some(a)), ..s })
    } else {
        Err(ErrorModel::UnknownArgument { subcommand: sub, argument: a })
    }
}

/// The progress after all of `args`, or the first error.
pub open spec fn spec_steps(sub: Subcommand, s: ExeArgsModel, args: Seq<Seq<char>>) -> Result<ExeArgsModel, ErrorModel>
    decreases args.len(),
{
    if args.len() == 0 {
        Ok(s)
    } else {
        match spec_step(sub, s, args[0]) {
            Ok(t) => spec_steps(sub, t, args.drop_first()),
            Err(e) => Err(e),
        }
    }
}

pub open spec fn exe_command(sub: Subcommand, exe_path_file: Seq<char>, values: Seq<Seq<char>>) -> CommandModel {
    match sub {
        Subcommand::Build => CommandModel::Build { exe_path_file, build_args: values },
        Subcommand::Run => CommandModel::Run { build_args: values, run_args: Seq::empty() },
        Subcommand::RunFrom => CommandModel::RunFrom { exe_path_file, run_args: values },
    }
}

/// The command once every argument is read: `--exe-path-file` is required.
pub open spec fn spec_finish(sub: Subcommand, s: ExeArgsModel) -> Result<CommandModel, ErrorModel> {
    match spec_resolve(sub, s) {
        Err(e) => Err(e),
        Ok(t) => match t.exe_path_file {
            None => Err(ErrorModel::MissingExePathFile { subcommand: sub }),
            Some(p) => Ok(exe_command(sub, p, t.positional)),
        },
    }
}

/// The meaning of the arguments after `build` or `run-from`.
pub open spec fn spec_parse_exe_command(sub: Subcommand, args: Seq<Seq<char>>) -> Result<CommandModel, ErrorModel> {
    match spec_steps(sub, initial_exe_args(), args) {
        Err(e) => Err(e),
        Ok(s) => spec_finish(sub, s),
    }
}

// ---------------------------------------------------------------------------
// `run`: everything is for cargo and the program, but a leading help flag
// ---------------------------------------------------------------------------

/// The meaning of the arguments after `run` (or of all the arguments, when no
/// subcommand is named).
pub open spec fn spec_parse_run(args: Seq<Seq<char>>) -> Result<CommandModel, ErrorModel> {
    if args.len() > 0 && is_long(args[0]) && long_name(args[0]) == word_help() {
        match long_value(args[0]) {
            Some(v) => Err(ErrorModel::UnexpectedValue { subcommand: Subcommand::Run, value: v }),
            None => Err(ErrorModel::DisplayHelp { command: Some(Subcommand::Run), long: true }),
        }
    } else if args.len() > 0 && is_help_cluster(args[0]) {
        Err(ErrorModel::DisplayHelp { command: Some(Subcommand::Run), long: false })
    } else {
        let (b, r) = spec_split_args(args);
        Ok(CommandModel::Run { build_args: b, run_args: r })
    }
}

/// Whether the first argument names a subcommand or asks for help or version.
pub open spec fn is_explicit(a: Seq<char>) -> bool {
    a == word_build() || a == word_run() || a == word_run_from() || a == short_help_flag()
        || a == long_help_flag() || a == short_version_flag() || a == long_version_flag()
}

/// The meaning of a whole command line (without the program name).
pub open spec fn spec_parse_args(args: Seq<Seq<char>>) -> Result<CommandModel, ErrorModel> {
    if args.len() > 0 && is_explicit(args[0]) {
        let a = args[0];
        if a == word_build() {
            spec_parse_exe_command(Subcommand::Build, args.drop_first())
        } else if a == word_run() {
            spec_parse_run(args.drop_first())
        } else if a == word_run_from() {
            spec_parse_exe_command(Subcommand::RunFrom, args.drop_first())
        } else if a == short_help_flag() {
            Err(ErrorModel::DisplayHelp { command: None, long: false })
        } else if a == long_help_flag() {
            Err(ErrorModel::DisplayHelp { command: None, long: true })
        } else if a == short_version_flag() {
            Err(ErrorModel::DisplayVersion { long: false })
        } else {
            Err(ErrorModel::DisplayVersion { long: true })
        }
    } else {
        spec_parse_run(args)
    }
}

// ---------------------------------------------------------------------------
// Laws of the command line
// ---------------------------------------------------------------------------

/// `--exe-path-file`.
pub open spec fn exe_path_file_flag() -> Seq<char> {
    seq!['-', '-'] + word_exe_path_file()
}

/// Omitting the subcommand is the same as naming `run`.
pub proof fn law_implicit_run(args: Seq<Seq<char>>)
    requires
        args.len() == 0 || !is_explicit(args[0]),
    ensures
        spec_parse_args(args) == spec_parse_args(seq![word_run()] + args),
{
    let full = seq![word_run()] + args;
    assert(full[0] == word_run());
    assert(full.drop_first() =~= args);
}

proof fn lemma_exe_path_file_flag()
    ensures
        is_long(exe_path_file_flag()),
        long_name(exe_path_file_flag()) == word_exe_path_file(),
        long_value(exe_path_file_flag()) is None,
{
    let a = exe_path_file_flag();
    let body = a.skip(2);
    assert(body =~= word_exe_path_file());
    crate::text::lemma_first_index_unique(body, '=', body.len() as int);
    assert(body.take(body.len() as int) =~= body);
}

/// Once past `--` with `--exe-path-file` settled, every further argument is a
/// value, `--` included.
proof fn lemma_trailing_steps(sub: Subcommand, s: ExeArgsModel, values: Seq<Seq<char>>)
    requires
        s.trailing,
        s.pending is None,
    ensures
        spec_steps(sub, s, values) == Ok::<ExeArgsModel, ErrorModel>(
            ExeArgsModel { positional: s.positional + values, ..s },
        ),
    decreases values.len(),
{
    if values.len() == 0 {
        assert(s.positional + values =~= s.positional);
    } else {
        let t = ExeArgsModel { positional: s.positional.push(values[0]), ..s };
        lemma_trailing_steps(sub, t, values.drop_first());
        assert(t.positional + values.drop_first() =~= s.positional + values);
    }
}

/// The documented usage: `build --exe-path-file PATH -- ARGS...` and
/// `run-from --exe-path-file PATH -- ARGS...` give PATH and ARGS, whatever
/// ARGS are, for a non-empty PATH that does not start with a dash.
pub proof fn law_exe_command_usage(sub: Subcommand, path: Seq<char>, values: Seq<Seq<char>>)
    requires
        sub != Subcommand::Run,
        path.len() > 0,
        path[0] != '-',
    ensures
        spec_parse_exe_command(sub, seq![exe_path_file_flag(), path, separator()] + values)
            == Ok::<CommandModel, ErrorModel>(exe_command(sub, path, values)),
{
    lemma_exe_path_file_flag();
    let args = seq![exe_path_file_flag(), path, separator()] + values;
    let s0 = initial_exe_args();
    let s1 = ExeArgsModel { pending: Some(None), ..s0 };
    let s2 = ExeArgsModel { pending: Some(Some(path)), ..s0 };
    let s3 = ExeArgsModel { trailing: true, ..s2 };
    assert(exe_path_file_flag() != separator());
    assert(args[0] == exe_path_file_flag());
    assert(spec_step(sub, s0, args[0]) == Ok::<ExeArgsModel, ErrorModel>(s1));
    assert(args.drop_first()[0] == path);
    assert(path != separator());
    assert(!is_long(path) && !is_short(path));
    assert(spec_step(sub, s1, path) == Ok::<ExeArgsModel, ErrorModel>(s2));
    assert(args.drop_first().drop_first()[0] == separator());
    assert(spec_step(sub, s2, separator()) == Ok::<ExeArgsModel, ErrorModel>(s3));
    assert(args.drop_first().drop_first().drop_first() =~= values);
    let settled = ExeArgsModel { exe_path_file: Some(path), pending: None, ..s3 };
    assert(spec_resolve(sub, s3) == Ok::<ExeArgsModel, ErrorModel>(settled));
    assert(spec_steps(sub, s0, args) == spec_steps(sub, s1, args.drop_first()));
    assert(spec_steps(sub, s1, args.drop_first()) == spec_steps(sub, s2, args.drop_first().drop_first()));
    assert(spec_steps(sub, s2, args.drop_first().drop_first()) == spec_steps(sub, s3, values));
    if values.len() == 0 {
        assert(spec_steps(sub, s3, values) == Ok::<ExeArgsModel, ErrorModel>(s3));
        assert(settled.positional =~= values);
    } else {
        let s4 = ExeArgsModel { positional: settled.positional.push(values[0]), ..settled };
        assert(spec_step(sub, s3, values[0]) == Ok::<ExeArgsModel, ErrorModel>(s4));
        lemma_trailing_steps(sub, s4, values.drop_first());
        assert(s4.positional + values.drop_first() =~= values);
        assert(spec_steps(sub, s3, values) == spec_steps(sub, s4, values.drop_first()));
    }
}

/// `build` and `run-from` need no `--` when no values follow:
/// `--exe-path-file PATH` alone gives PATH and no values, for a non-empty PATH
/// that does not start with a dash.
pub proof fn law_exe_command_without_separator(sub: Subcommand, path: Seq<char>)
    requires
        sub != Subcommand::Run,
        path.len() > 0,
        path[0] != '-',
    ensures
        spec_parse_exe_command(sub, seq![exe_path_file_flag(), path])
            == Ok::<CommandModel, ErrorModel>(exe_command(sub, path, Seq::empty())),
{
    lemma_exe_path_file_flag();
    let args = seq![exe_path_file_flag(), path];
    let s0 = initial_exe_args();
    let s1 = ExeArgsModel { pending: Some(None), ..s0 };
    let s2 = ExeArgsModel { pending: Some(Some(path)), ..s0 };
    assert(exe_path_file_flag() != separator());
    assert(spec_step(sub, s0, args[0]) == Ok::<ExeArgsModel, ErrorModel>(s1));
    assert(path != separator());
    assert(!is_long(path) && !is_short(path));
    assert(spec_step(sub, s1, path) == Ok::<ExeArgsModel, ErrorModel>(s2));
    assert(args.drop_first()[0] == path);
    assert(args.drop_first().drop_first() =~= Seq::<Seq<char>>::empty());
    assert(spec_steps(sub, s0, args) == spec_steps(sub, s1, args.drop_first()));
    assert(spec_steps(sub, s1, args.drop_first()) == spec_steps(sub, s2, args.drop_first().drop_first()));
    assert(s2.positional =~= Seq::<Seq<char>>::empty());
}

/// `--exe-path-file=PATH` gives PATH, with or without a `--` and values after
/// it, for any non-empty PATH.
pub proof fn law_exe_command_with_equals(sub: Subcommand, path: Seq<char>, values: Seq<Seq<char>>)
    requires
        sub != Subcommand::Run,
        path.len() > 0,
    ensures
        spec_parse_exe_command(sub, seq![exe_path_file_flag() + seq!['='] + path])
            == Ok::<CommandModel, ErrorModel>(exe_command(sub, path, Seq::empty())),
        spec_parse_exe_command(sub, seq![exe_path_file_flag() + seq!['='] + path, separator()] + values)
            == Ok::<CommandModel, ErrorModel>(exe_command(sub, path, values)),
{
    let a = exe_path_file_flag() + seq!['='] + path;
    let body = a.skip(2);
    assert(body =~= word_exe_path_file() + seq!['='] + path);
    assert forall|j: int| 0 <= j < 13 implies body[j] != '=' by {
        assert(body[j] == word_exe_path_file()[j]);
    }
    crate::text::lemma_first_index_unique(body, '=', 13);
    assert(body.take(13) =~= word_exe_path_file());
    assert(body.skip(14) =~= path);
    assert(is_long(a));
    assert(a != separator());
    let s0 = initial_exe_args();
    let settled = ExeArgsModel { exe_path_file: Some(path), pending: None, ..s0 };
    assert(spec_step(sub, s0, a) == Ok::<ExeArgsModel, ErrorModel>(settled));
    assert(settled.positional =~= Seq::<Seq<char>>::empty());
    let one = seq![a];
    assert(one[0] == a);
    assert(one.drop_first() =~= Seq::<Seq<char>>::empty());
    assert(spec_steps(sub, s0, one) == spec_steps(sub, settled, one.drop_first()));
    let args = seq![a, separator()] + values;
    let s3 = ExeArgsModel { trailing: true, ..settled };
    assert(args[0] == a);
    assert(args.drop_first()[0] == separator());
    assert(args.drop_first().drop_first() =~= values);
    assert(spec_steps(sub, s0, args) == spec_steps(sub, settled, args.drop_first()));
    assert(spec_steps(sub, settled, args.drop_first()) == spec_steps(sub, s3, values));
    lemma_trailing_steps(sub, s3, values);
    assert(s3.positional + values =~= values);
}

/// Whether `a` asks `run` for help: `--help`, `--help=...`, or `-h`, `-hh`, ...
pub open spec fn asks_for_help(a: Seq<char>) -> bool {
    (is_long(a) && long_name(a) == word_help()) || is_help_cluster(a)
}

/// Unless its first argument asks for help, `run` takes every argument: those
/// before the first `--` for cargo, those after it for the program (and all of
/// them for cargo when there is no `--`). A first flag such as
/// `--manifest-path=PATH` is a build option like any other.
pub proof fn law_run_takes_all_arguments(args: Seq<Seq<char>>)
    requires
        args.len() == 0 || !asks_for_help(args[0]),
    ensures
        spec_parse_run(args) is Ok,
        spec_parse_run(args)->Ok_0 is Run,
        ({
            let b = spec_parse_run(args)->Ok_0->Run_build_args;
            let r = spec_parse_run(args)->Ok_0->Run_run_args;
            &&& !b.contains(separator())
            &&& args.contains(separator()) ==> args == b + seq![separator()] + r
            &&& !args.contains(separator()) ==> b == args && r.len() == 0
        }),
{
    lemma_first_index(args, separator());
    let k = first_index(args, separator()) as int;
    let (b, r) = spec_split_args(args);
    if k < args.len() {
        assert(args =~= args.take(k) + seq![separator()] + args.skip(k + 1));
    }
    if b.contains(separator()) {
        let j = choose|j: int| 0 <= j < b.len() && b[j] == separator();
        assert(b[j] == args[j]);
    }
}

/// A command line that starts with a long flag other than `--help` and
/// `--version`, then `--`, is `run` with that flag for cargo and the rest for
/// the program.
pub proof fn law_leading_flag_is_a_build_option(a: Seq<char>, rest: Seq<Seq<char>>)
    requires
        is_long(a),
        long_name(a) != word_help(),
        a != long_version_flag(),
    ensures
        spec_parse_args(seq![a, separator()] + rest) == Ok::<CommandModel, ErrorModel>(
            CommandModel::Run { build_args: seq![a], run_args: rest },
        ),
{
    let args = seq![a, separator()] + rest;
    assert(args[0] == a);
    assert(a != word_build() && a != word_run() && a != word_run_from() && a != short_help_flag()
        && a != short_version_flag()) by {
        if a == word_build() { assert(a[0] == 'b'); }
        if a == word_run() { assert(a[0] == 'r'); }
        if a == word_run_from() { assert(a[0] == 'r'); }
        if a == short_help_flag() { assert(a.len() == 2); }
        if a == short_version_flag() { assert(a.len() == 2); }
    }
    if a == long_help_flag() {
        let body = a.skip(2);
        assert(body =~= word_help());
        crate::text::lemma_first_index_unique(body, '=', 4);
        assert(body.take(4) =~= word_help());
        assert(false);
    }
    assert(!is_help_cluster(a));
    law_run_takes_all_arguments(args);
    crate::text::lemma_first_index_unique(args, separator(), 1);
    assert(args.take(1) =~= seq![a]);
    assert(args.skip(2) =~= rest);
}

/// Whether `a` is `--exe-path-file` or `--exe-path-file=...`.
pub open spec fn is_exe_path_file_flag(a: Seq<char>) -> bool {
    is_long(a) && long_name(a) == word_exe_path_file()
}

proof fn lemma_without_exe_flag(sub: Subcommand, s: ExeArgsModel, args: Seq<Seq<char>>)
    requires
        s.exe_path_file is None,
        s.pending is None,
        !s.trailing ==> forall|i: int|
            0 <= i < first_index(args, separator()) ==> !is_exe_path_file_flag(#[trigger] args[i]),
    ensures
        spec_steps(sub, s, args) is Ok ==> spec_steps(sub, s, args)->Ok_0.exe_path_file is None
            && spec_steps(sub, s, args)->Ok_0.pending is None,
    decreases args.len(),
{
    if args.len() > 0 {
        let a = args[0];
        match spec_step(sub, s, a) {
            Ok(t) => {
                if !s.trailing && a != separator() {
                    assert(0 < first_index(args, separator()));
                    assert(!is_exe_path_file_flag(args[0]));
                }
                assert(t.exe_path_file is None && t.pending is None);
                if !t.trailing {
                    assert(a != separator());
                    assert forall|i: int|
                        0 <= i < first_index(args.drop_first(), separator()) implies !is_exe_path_file_flag(
                            #[trigger] args.drop_first()[i],
                        ) by {
                        assert(args.drop_first()[i] == args[i + 1]);
                    }
                }
                lemma_without_exe_flag(sub, t, args.drop_first());
            },
            Err(_) => {},
        }
    }
}

/// `build` and `run-from` need `--exe-path-file`: without it before the first
/// `--`, their arguments are refused.
pub proof fn law_exe_path_file_required(sub: Subcommand, args: Seq<Seq<char>>)
    requires
        forall|i: int| 0 <= i < first_index(args, separator()) ==> !is_exe_path_file_flag(#[trigger] args[i]),
    ensures
        spec_parse_exe_command(sub, args) is Err,
{
    lemma_without_exe_flag(sub, initial_exe_args(), args);
}

// ---------------------------------------------------------------------------
// Parsing
// ---------------------------------------------------------------------------

/// What a first argument names.
#[derive(PartialEq, Eq, Structural)]
enum Leading {
    Build,
    Run,
    RunFrom,
    ShortHelp,
    LongHelp,
    ShortVersion,
    LongVersion,
    Other,
}

spec fn leading_of(a: Seq<char>) -> Leading {
    if a == word_build() {
        Leading::Build
    } else if a == word_run() {
        Leading::Run
    } else if a == word_run_from() {
        Leading::RunFrom
    } else if a == short_help_flag() {
        Leading::ShortHelp
    } else if a == long_help_flag() {
        Leading::LongHelp
    } else if a == short_version_flag() {
        Leading::ShortVersion
    } else if a == long_version_flag() {
        Leading::LongVersion
    } else {
        Leading::Other
    }
}

fn classify_leading(a: &str) -> (r: Leading)
    ensures
        r == leading_of(a@),
{
    proof {
        reveal_strlit("build");
        reveal_strlit("run");
        reveal_strlit("run-from");
        reveal_strlit("-h");
        reveal_strlit("--help");
        reveal_strlit("-V");
        reveal_strlit("--version");
        assert("build"@ =~= word_build());
        assert("run"@ =~= word_run());
        assert("run-from"@ =~= word_run_from());
        assert("-h"@ =~= short_help_flag());
        assert("--help"@ =~= long_help_flag());
        assert("-V"@ =~= short_version_flag());
        assert("--version"@ =~= long_version_flag());
    }
    if str_equals(a, "build") {
        Leading::Build
    } else if str_equals(a, "run") {
        Leading::Run
    } else if str_equals(a, "run-from") {
        Leading::RunFrom
    } else if str_equals(a, "-h") {
        Leading::ShortHelp
    } else if str_equals(a, "--help") {
        Leading::LongHelp
    } else if str_equals(a, "-V") {
        Leading::ShortVersion
    } else if str_equals(a, "--version") {
        Leading::LongVersion
    } else {
        Leading::Other
    }
}

/// What the name of a long flag names.
#[derive(PartialEq, Eq, Structural)]
enum FlagName {
    ExePathFile,
    Help,
    Other,
}

spec fn flag_name_of(name: Seq<char>) -> FlagName {
    if name == word_exe_path_file() {
        FlagName::ExePathFile
    } else if name == word_help() {
        FlagName::Help
    } else {
        FlagName::Other
    }
}

fn classify_flag_name(name: &str) -> (r: FlagName)
    ensures
        r == flag_name_of(name@),
{
    proof {
        reveal_strlit("exe-path-file");
        reveal_strlit("help");
        assert("exe-path-file"@ =~= word_exe_path_file());
        assert("help"@ =~= word_help());
    }
    if str_equals(name, "exe-path-file") {
        FlagName::ExePathFile
    } else if str_equals(name, "help") {
        FlagName::Help
    } else {
        FlagName::Other
    }
}

/// A long flag split into the flag as written before any `=` (with its two
/// dashes), its bare name, and its attached value.
fn split_long(a: &str) -> (r: (String, String, Option<String>))
    requires
        is_long(a@),
    ensures
        r.0@ == a@.take((2 + long_name(a@).len()) as int),
        r.1@ == long_name(a@),
        r.2.deep_view() == long_value(a@),
{
    let n = a.unicode_len();
    let eq = find_char_from(a, '=', 2);
    let ghost body = a@.skip(2);
    proof {
        lemma_first_index(body, '=');
    }
    let flag = a.substring_char(0, eq).to_owned();
    let name = a.substring_char(2, eq).to_owned();
    assert(name@ =~= long_name(a@));
    assert(flag@ =~= a@.take((2 + long_name(a@).len()) as int));
    if eq < n {
        let value = a.substring_char(eq + 1, n).to_owned();
        assert(value@ =~= body.skip((eq - 2) + 1));
        (flag, name, Some(value))
    } else {
        (flag, name, None)
    }
}

/// Whether every character of `a` from index 1 on is `h`.
fn only_h_after_dash(a: &str) -> (b: bool)
    ensures
        b == (forall|i: int| 1 <= i < a@.len() ==> a@[i] == 'h'),
{
    let n = a.unicode_len();
    let mut i: usize = 1;
    while i < n
        invariant
            n == a@.len(),
            1 <= i,
            forall|j: int| 1 <= j < i && j < n ==> a@[j] == 'h',
        decreases n - i,
    {
        if a.get_char(i) != 'h' {
            return false;
        }
        i = i + 1;
    }
    true
}

struct ExeArgs {
    exe_path_file: Option<String>,
    pending: Option<Option<String>>,
    trailing: bool,
    positional: Vec<String>,
}

impl View for ExeArgs {
    type V = ExeArgsModel;

    closed spec fn view(&self) -> ExeArgsModel {
        ExeArgsModel {
            exe_path_file: self.exe_path_file.deep_view(),
            pending: self.pending.deep_view(),
            trailing: self.trailing,
            positional: self.positional.deep_view(),
        }
    }
}

spec fn state_model(r: Result<ExeArgs, CliError>) -> Result<ExeArgsModel, ErrorModel> {
    match r {
        Ok(s) => Ok(s@),
        Err(e) => Err(e@),
    }
}

fn resolve(sub: Subcommand, s: ExeArgs) -> (r: Result<ExeArgs, CliError>)
    ensures
        state_model(r) == spec_resolve(sub, s@),
{
    let ExeArgs { exe_path_file, pending, trailing, positional } = s;
    match pending {
        None => Ok(ExeArgs { exe_path_file, pending: None, trailing, positional }),
        Some(None) => Err(CliError::EmptyValue { subcommand: sub }),
        Some(Some(v)) => {
            if exe_path_file.is_some() {
                Err(CliError::ArgumentConflict { subcommand: sub })
            } else if v.as_str().is_empty() {
                Err(CliError::EmptyValue { subcommand: sub })
            } else {
                Ok(ExeArgs { exe_path_file: Some(v), pending: None, trailing, positional })
            }
        },
    }
}

fn step(sub: Subcommand, s: ExeArgs, a: &String) -> (r: Result<ExeArgs, CliError>)
    ensures
        state_model(r) == spec_step(sub, s@, a@),
{
    if s.trailing {
        match resolve(sub, s) {
            Err(e) => return Err(e),
            Ok(t) => {
                let ExeArgs { exe_path_file, pending, trailing, mut positional } = t;
                let ghost before = positional.deep_view();
                positional.push(a.clone());
                assert(positional.deep_view() =~= before.push(a@));
                return Ok(ExeArgs { exe_path_file, pending, trailing, positional });
            },
        }
    }
    let text = a.as_str();
    if is_separator(text) {
        return Ok(ExeArgs { trailing: true, ..s });
    }
    let n = text.unicode_len();
    if n > 2 && text.get_char(0) == '-' && text.get_char(1) == '-' {
        let (flag, name, value) = split_long(text);
        let kind = classify_flag_name(name.as_str());
        if kind == FlagName::ExePathFile {
            match resolve(sub, s) {
                Err(e) => Err(e),
                Ok(t) => match value {
                    Some(v) => resolve(sub, ExeArgs { pending: Some(Some(v)), ..t }),
                    None => Ok(ExeArgs { pending: Some(None), ..t }),
                },
            }
        } else if kind == FlagName::Help {
            match value {
                Some(v) => Err(CliError::UnexpectedValue { subcommand: sub, value: v }),
                None => match resolve(sub, s) {
                    Err(e) => Err(e),
                    Ok(_) => Err(CliError::DisplayHelp { command: Some(sub), long: true }),
                },
            }
        } else {
            Err(CliError::UnknownArgument { subcommand: sub, argument: flag })
        }
    } else if n > 1 && text.get_char(0) == '-' && text.get_char(1) != '-' {
        if text.get_char(1) == 'h' {
            match resolve(sub, s) {
                Err(e) => Err(e),
                Ok(_) => Err(CliError::DisplayHelp { command: Some(sub), long: false }),
            }
        } else {
            let flag = text.substring_char(0, 2).to_owned();
            Err(CliError::UnknownArgument { subcommand: sub, argument: flag })
        }
    } else {
        let awaiting = match &s.pending {
            Some(None) => true,
            _ => false,
        };
        if awaiting {
            Ok(ExeArgs { pending: Some(Some(a.clone())), ..s })
        } else {
            Err(CliError::UnknownArgument { subcommand: sub, argument: a.clone() })
        }
    }
}

fn finish(sub: Subcommand, s: ExeArgs) -> (r: Result<CliCommand, CliError>)
    ensures
        result_model(r) == spec_finish(sub, s@),
{
    match resolve(sub, s) {
        Err(e) => Err(e),
        Ok(t) => match t.exe_path_file {
            None => Err(CliError::MissingExePathFile { subcommand: sub }),
            Some(p) => match sub {
                Subcommand::Build => Ok(CliCommand::Build { exe_path_file: p, build_args: t.positional }),
                Subcommand::Run => {
                    let run_args: Vec<String> = Vec::new();
                    assert(run_args.deep_view() =~= Seq::<Seq<char>>::empty());
                    Ok(CliCommand::Run { build_args: t.positional, run_args })
                },
                Subcommand::RunFrom => Ok(CliCommand::RunFrom { exe_path_file: p, run_args: t.positional }),
            },
        },
    }
}

/// Parses the arguments after `build` or `run-from` (those of `args` from
/// `start` on).
fn parse_exe_command(sub: Subcommand, args: &Vec<String>, start: usize) -> (r: Result<CliCommand, CliError>)
    requires
        start <= args.len(),
    ensures
        result_model(r) == spec_parse_exe_command(sub, args.deep_view().skip(start as int)),
{
    let ghost all = args.deep_view();
    let positional: Vec<String> = Vec::new();
    assert(positional.deep_view() =~= Seq::<Seq<char>>::empty());
    let mut s = ExeArgs { exe_path_file: None, pending: None, trailing: false, positional };
    assert(s@ == initial_exe_args());
    let n = args.len();
    let mut i: usize = start;
    while i < n
        invariant
            n == args.len(),
            all == args.deep_view(),
            start <= i <= n,
            spec_steps(sub, initial_exe_args(), all.skip(start as int)) == spec_steps(sub, s@, all.skip(i as int)),
        decreases n - i,
    {
        let ghost rest = all.skip(i as int);
        assert(rest[0] == args[i as int]@);
        assert(rest.drop_first() =~= all.skip(i + 1));
        match step(sub, s, &args[i]) {
            Ok(t) => {
                s = t;
            },
            Err(e) => {
                return Err(e);
            },
        }
        i = i + 1;
    }
    assert(all.skip(n as int) =~= Seq::<Seq<char>>::empty());
    finish(sub, s)
}

/// Parses the arguments after `run`.
fn parse_run(args: Vec<String>) -> (r: Result<CliCommand, CliError>)
    ensures
        result_model(r) == spec_parse_run(args.deep_view()),
{
    if args.len() > 0 {
        let text = args[0].as_str();
        let n = text.unicode_len();
        if n > 2 && text.get_char(0) == '-' && text.get_char(1) == '-' {
            let (_flag, name, value) = split_long(text);
            if classify_flag_name(name.as_str()) == FlagName::Help {
                return match value {
                    Some(v) => Err(CliError::UnexpectedValue { subcommand: Subcommand::Run, value: v }),
                    None => Err(CliError::DisplayHelp { command: Some(Subcommand::Run), long: true }),
                };
            }
        } else if n > 1 && text.get_char(0) == '-' && text.get_char(1) != '-' && only_h_after_dash(text) {
            return Err(CliError::DisplayHelp { command: Some(Subcommand::Run), long: false });
        }
    }
    let (build_args, run_args) = split_args(args);
    Ok(CliCommand::Run { build_args, run_args })
}

/// Parses a command line (without the program name) into a command.
///
/// A first argument that is neither a subcommand (`build`, `run`, `run-from`)
/// nor a help or version flag makes the whole line the arguments of `run`.
pub fn parse_args(args: Vec<String>) -> (r: Result<CliCommand, CliError>)
    ensures
        result_model(r) == spec_parse_args(args.deep_view()),
{
    let ghost all = args.deep_view();
    if args.len() > 0 {
        assert(all[0] == args[0]@);
        let text = args[0].as_str();
        let leading = classify_leading(text);
        if leading == Leading::Build {
            return parse_exe_command(Subcommand::Build, &args, 1);
        } else if leading == Leading::Run {
            let mut args = args;
            let rest = args.split_off(1);
            assert(rest.deep_view() =~= all.drop_first());
            return parse_run(rest);
        } else if leading == Leading::RunFrom {
            return parse_exe_command(Subcommand::RunFrom, &args, 1);
        } else if leading == Leading::ShortHelp {
            return Err(CliError::DisplayHelp { command: None, long: false });
        } else if leading == Leading::LongHelp {
            return Err(CliError::DisplayHelp { command: None, long: true });
        } else if leading == Leading::ShortVersion {
            return Err(CliError::DisplayVersion { long: false });
        } else if leading == Leading::LongVersion {
            return Err(CliError::DisplayVersion { long: true });
        }
    }
    parse_run(args)
}

} // verus!
