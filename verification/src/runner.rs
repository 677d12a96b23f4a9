//! The decisions of the test runner that compiles each test program with
//! Kira and with a reference compiler and compares the two runs: what the
//! command line asks for, whether two runs agree, and what to do while
//! waiting for a command.

use vstd::prelude::*;
use vstd::string::StringExecFns;
use crate::output::{filter_timer_lines, lines_of, str_views, without_timer_lines};

verus! {

/// What the runner was asked to run: one C file, or the whole test suite.
#[derive(Debug)]
pub struct Args {
    pub input_c_file: Option<String>,
}

/// What the command line asks for.
#[derive(Debug)]
pub enum CliRequest {
    /// Run the tests.
    Run(Args),
    /// Print the usage and stop.
    Help,
}

/// A command line that the runner refuses.
#[derive(Debug)]
pub enum ArgsError {
    /// `--input-c-file` came last, with no value.
    MissingValue,
    /// An argument that the runner does not know.
    UnknownArgument(String),
}

/// What a command line asks for, over the characters of its arguments.
pub enum ArgsOutcome {
    Run(Option<Seq<char>>),
    Help,
    MissingValue,
    UnknownArgument(Seq<char>),
}

/// The flag that names a single C file to test.
pub open spec fn input_flag() -> Seq<char> {
    "--input-c-file"@
}

/// The short flag that asks for the usage.
pub open spec fn short_help_flag() -> Seq<char> {
    "-h"@
}

/// The long flag that asks for the usage.
pub open spec fn long_help_flag() -> Seq<char> {
    "--help"@
}

/// Reading `args` from the left, with `input` the file named so far: the
/// first unknown argument or a trailing `--input-c-file` is refused, the
/// first help flag stops the reading, and the last file named wins.
pub open spec fn parse_outcome(args: Seq<Seq<char>>, input: Option<Seq<char>>) -> ArgsOutcome
    decreases args.len(),
{
    if args.len() == 0 {
        ArgsOutcome::Run(input)
    } else if args[0] == input_flag() {
        if args.len() < 2 {
            ArgsOutcome::MissingValue
        } else {
            parse_outcome(args.skip(2), Some(args[1]))
        }
    } else if args[0] == short_help_flag() || args[0] == long_help_flag() {
        ArgsOutcome::Help
    } else {
        ArgsOutcome::UnknownArgument(args[0])
    }
}

/// The characters of each argument.
pub open spec fn arg_views(args: Seq<String>) -> Seq<Seq<char>> {
    args.map_values(|a: String| a@)
}

/// What a result of `Args::parse` stands for.
pub open spec fn outcome_of(r: Result<CliRequest, ArgsError>) -> ArgsOutcome {
    match r {
        Ok(CliRequest::Run(args)) => ArgsOutcome::Run(
            match args.input_c_file {
                Some(f) => Some(f@),
                None => None,
            },
        ),
        Ok(CliRequest::Help) => ArgsOutcome::Help,
        Err(ArgsError::MissingValue) => ArgsOutcome::MissingValue,
        Err(ArgsError::UnknownArgument(a)) => ArgsOutcome::UnknownArgument(a@),
    }
}

impl Args {
    /// Reads the runner's arguments (without the program name).
    pub fn parse(args: &Vec<String>) -> (r: Result<CliRequest, ArgsError>)
        ensures
            outcome_of(r) == parse_outcome(arg_views(args@), None),
    {
        let ghost all = arg_views(args@);
        let input_flag_s = String::from_str("--input-c-file");
        let short_help_s = String::from_str("-h");
        let long_help_s = String::from_str("--help");
        let mut input_c_file: Option<String> = None;
        let mut i: usize = 0;
        assert(all.skip(0) =~= all);
        while i < args.len()
            invariant
                all == arg_views(args@),
                i <= args.len(),
                input_flag_s@ == input_flag(),
                short_help_s@ == short_help_flag(),
                long_help_s@ == long_help_flag(),
                parse_outcome(all, None) == parse_outcome(
                    all.skip(i as int),
                    match input_c_file {
                        Some(f) => Some(f@),
                        None => None,
                    },
                ),
            decreases args.len() - i,
        {
            let ghost rest = all.skip(i as int);
            assert(rest[0] == args@[i as int]@);
            if args[i] == input_flag_s {
                if i + 1 >= args.len() {
                    return Err(ArgsError::MissingValue);
                }
                assert(rest[1] == args@[i + 1]@);
                assert(rest.skip(2) =~= all.skip(i + 2));
                input_c_file = Some(args[i + 1].clone());
                i = i + 2;
            } else if args[i] == short_help_s || args[i] == long_help_s {
                return Ok(CliRequest::Help);
            } else {
                return Err(ArgsError::UnknownArgument(args[i].clone()));
            }
        }
        Ok(CliRequest::Run(Args { input_c_file }))
    }
}

impl ArgsError {
    /// The message the runner reports for this error.
    pub fn message(&self) -> (s: String)
        ensures
            s@ == match self {
                ArgsError::MissingValue => "missing value for --input-c-file"@,
                ArgsError::UnknownArgument(a) => "unknown argument: "@ + a@,
            },
    {
        match self {
            ArgsError::MissingValue => String::from_str("missing value for --input-c-file"),
            ArgsError::UnknownArgument(a) => String::from_str("unknown argument: ").concat(
                a.as_str(),
            ),
        }
    }
}

/// Whether `c` has Unicode's `White_Space` property: U+0009 to U+000D,
/// U+0020, U+0085, U+00A0, U+1680, U+2000 to U+200A, U+2028, U+2029,
/// U+202F, U+205F and U+3000.
pub open spec fn is_white_space(c: char) -> bool {
    let v = c as u32;
    ||| 0x9 <= v <= 0xd
    ||| v == 0x20
    ||| v == 0x85
    ||| v == 0xa0
    ||| v == 0x1680
    ||| 0x2000 <= v <= 0x200a
    ||| v == 0x2028
    ||| v == 0x2029
    ||| v == 0x202f
    ||| v == 0x205f
    ||| v == 0x3000
}

/// `s` without its leading white space.
pub open spec fn trimmed_start(s: Seq<char>) -> Seq<char>
    decreases s.len(),
{
    if s.len() > 0 && is_white_space(s[0]) {
        trimmed_start(s.drop_first())
    } else {
        s
    }
}

/// `s` without its trailing white space.
pub open spec fn trimmed_end(s: Seq<char>) -> Seq<char>
    decreases s.len(),
{
    if s.len() > 0 && is_white_space(s.last()) {
        trimmed_end(s.drop_last())
    } else {
        s
    }
}

/// `s` without its leading and trailing white space: the characters from
/// its first to its last that is not white space.
pub open spec fn trimmed(s: Seq<char>) -> Seq<char> {
    trimmed_end(trimmed_start(s))
}

/// Calls `str::trim`, which std documents as returning `s` without its
/// leading and trailing white space, white space being the characters of
/// Unicode's `White_Space` property (`char::is_whitespace`).
#[verifier::external_body]
fn trim(s: &str) -> (r: &str)
    ensures
        r@ == trimmed(s@),
{
    s.trim()
}

/// Whether `a` and `b` hold the same characters.
fn same_str(a: &str, b: &str) -> (r: bool)
    ensures
        r == (a@ == b@),
{
    let x: String = a.to_owned();
    let y: String = b.to_owned();
    x == y
}

/// Whether `a` and `b` hold the same lines in the same order.
fn same_lines(a: &Vec<&str>, b: &Vec<&str>) -> (r: bool)
    ensures
        r == (str_views(a@) == str_views(b@)),
{
    if a.len() != b.len() {
        proof {
            assert(str_views(a@).len() != str_views(b@).len());
        }
        return false;
    }
    let mut i: usize = 0;
    while i < a.len()
        invariant
            a.len() == b.len(),
            i <= a.len(),
            forall|k: int| 0 <= k < i ==> (#[trigger] a@[k])@ == b@[k]@,
        decreases a.len() - i,
    {
        if !same_str(a[i], b[i]) {
            proof {
                assert(str_views(a@)[i as int] != str_views(b@)[i as int]);
            }
            return false;
        }
        i += 1;
    }
    proof {
        assert(str_views(a@) =~= str_views(b@));
    }
    true
}

/// Two outputs agree when they are equal, or equal but for their timing
/// lines.
pub open spec fn outputs_agree_spec(kira: Seq<char>, reference: Seq<char>) -> bool {
    kira == reference || without_timer_lines(lines_of(kira)) == without_timer_lines(
        lines_of(reference),
    )
}

/// Whether the (trimmed) output of the program that Kira compiled agrees
/// with the (trimmed) output of the reference program.
pub fn outputs_agree(kira_out: &str, ref_out: &str) -> (b: bool)
    ensures
        b == outputs_agree_spec(kira_out@, ref_out@),
{
    if same_str(kira_out, ref_out) {
        return true;
    }
    let kira_lines = filter_timer_lines(kira_out);
    let ref_lines = filter_timer_lines(ref_out);
    same_lines(&kira_lines, &ref_lines)
}

/// How the run of Kira's program differs from the reference run.
#[derive(Debug)]
pub enum RunMismatch {
    /// The two programs exited with different codes.
    ExitCode { kira_code: i32, ref_code: i32 },
    /// The two programs printed different output; these are the trimmed
    /// outputs.
    Output { kira_output: String, ref_output: String },
}

/// Compares the run of Kira's program with the reference run: their exit
/// codes first, then their outputs without leading and trailing white space.
pub fn check_run(kira_code: i32, ref_code: i32, kira_stdout: &str, ref_stdout: &str) -> (r: Result<
    (),
    RunMismatch,
>)
    ensures
        kira_code != ref_code ==> r == Err::<(), RunMismatch>(
            RunMismatch::ExitCode { kira_code, ref_code },
        ),
        kira_code == ref_code ==> (r is Ok <==> outputs_agree_spec(
            trimmed(kira_stdout@),
            trimmed(ref_stdout@),
        )),
        kira_code == ref_code && r is Err ==> (r matches Err(
            RunMismatch::Output { kira_output, ref_output },
        ) && kira_output@ == trimmed(kira_stdout@) && ref_output@ == trimmed(ref_stdout@)),
{
    if kira_code != ref_code {
        return Err(RunMismatch::ExitCode { kira_code, ref_code });
    }
    let kira_out = trim(kira_stdout);
    let ref_out = trim(ref_stdout);
    if outputs_agree(kira_out, ref_out) {
        Ok(())
    } else {
        Err(
            RunMismatch::Output { kira_output: kira_out.to_owned(), ref_output: ref_out.to_owned() },
        )
    }
}

/// What to do next while waiting for a command with a time limit.
#[derive(Debug, Clone, Copy, PartialEq, Eq)]
pub enum WaitAction {
    /// The command has exited: collect its output.
    Collect,
    /// The time is up: kill the command.
    Kill,
    /// Wait a little and look again.
    Sleep,
}

/// The next step of waiting for a command: collect it once it has exited,
/// kill it once more than `timeout_nanos` have passed, else sleep.
pub fn wait_action(exited: bool, elapsed_nanos: u128, timeout_nanos: u128) -> (a: WaitAction)
    ensures
        exited ==> a == WaitAction::Collect,
        !exited && elapsed_nanos > timeout_nanos ==> a == WaitAction::Kill,
        !exited && elapsed_nanos <= timeout_nanos ==> a == WaitAction::Sleep,
{
    if exited {
        WaitAction::Collect
    } else if elapsed_nanos > timeout_nanos {
        WaitAction::Kill
    } else {
        WaitAction::Sleep
    }
}

/// Law: two outputs agree exactly when they hold the same lines, in the same
/// order, once their timing lines are left out; so agreement is symmetric,
/// and an output with one more line never agrees with one without it.
pub proof fn law_outputs_agree(a: Seq<char>, b: Seq<char>)
    ensures
        outputs_agree_spec(a, b) == (without_timer_lines(lines_of(a)) == without_timer_lines(
            lines_of(b),
        )),
        outputs_agree_spec(a, b) == outputs_agree_spec(b, a),
        outputs_agree_spec(a, b) ==> without_timer_lines(lines_of(a)).len()
            == without_timer_lines(lines_of(b)).len(),
{
}

/// Law: the value after `--input-c-file` is kept exactly as given.
pub proof fn law_input_file_kept(v: Seq<char>)
    ensures
        parse_outcome(seq![input_flag(), v], None) == ArgsOutcome::Run(Some(v)),
{
    let args = seq![input_flag(), v];
    reveal_with_fuel(parse_outcome, 2);
    assert(args[0] == input_flag() && args[1] == v && args.len() == 2);
    assert(args.skip(2) =~= Seq::<Seq<char>>::empty());
}

/// Law: when `--input-c-file` comes twice, the last value wins.
pub proof fn law_last_input_file_wins(v1: Seq<char>, v2: Seq<char>)
    ensures
        parse_outcome(seq![input_flag(), v1, input_flag(), v2], None) == ArgsOutcome::Run(
            Some(v2),
        ),
{
    let args = seq![input_flag(), v1, input_flag(), v2];
    assert(args[0] == input_flag() && args[1] == v1 && args.len() == 4);
    reveal_with_fuel(parse_outcome, 3);
    let rest = seq![input_flag(), v2];
    assert(args.skip(2) =~= rest);
    assert(rest[0] == input_flag() && rest[1] == v2 && rest.len() == 2);
    assert(rest.skip(2) =~= Seq::<Seq<char>>::empty());
}

/// Law: no arguments ask to run the whole suite.
pub proof fn law_no_arguments()
    ensures
        parse_outcome(Seq::<Seq<char>>::empty(), None) == ArgsOutcome::Run(None),
{
}

/// Law: a help flag first asks for the usage, whatever follows it.
pub proof fn law_help_first(rest: Seq<Seq<char>>)
    ensures
        parse_outcome(seq![short_help_flag()] + rest, None) == ArgsOutcome::Help,
        parse_outcome(seq![long_help_flag()] + rest, None) == ArgsOutcome::Help,
{
    reveal_strlit("-h");
    reveal_strlit("--help");
    reveal_strlit("--input-c-file");
    assert((seq![short_help_flag()] + rest)[0] == short_help_flag());
    assert((seq![long_help_flag()] + rest)[0] == long_help_flag());
    assert(short_help_flag() != input_flag()) by {
        assert(short_help_flag().len() != input_flag().len());
    }
    assert(long_help_flag() != input_flag()) by {
        assert(long_help_flag().len() != input_flag().len());
    }
}

/// Law: an argument that is no flag of the runner, first on the command
/// line, is refused as it stands.
pub proof fn law_unknown_first(a: Seq<char>, rest: Seq<Seq<char>>)
    requires
        a != input_flag(),
        a != short_help_flag(),
        a != long_help_flag(),
    ensures
        parse_outcome(seq![a] + rest, None) == ArgsOutcome::UnknownArgument(a),
{
    assert((seq![a] + rest)[0] == a);
}

} // verus!
