//! The configuration of one search, resolved from the command line and the
//! environment.

use crate::cli::{first_rejection, parse_outcome, positionals, tokens_of, ArgError, Cli};
use crate::text::same_text;
use vstd::prelude::*;

verus! {

/// What a configuration holds, as plain text.
pub struct ConfigView {
    pub query: Seq<char>,
    pub file_path: Seq<char>,
    pub ignore_case: bool,
}

/// What drives one search.
pub struct Config {
    /// The text to look for.
    pub query: String,
    /// The file to look in.
    pub file_path: String,
    /// Whether the search ignores case.
    pub ignore_case: bool,
}

impl View for Config {
    type V = ConfigView;

    open spec fn view(&self) -> ConfigView {
        ConfigView {
            query: self.query@,
            file_path: self.file_path@,
            ignore_case: self.ignore_case,
        }
    }
}

/// Whether a search ignores case, given the value of the option
/// `ignore-case` and that of the environment variable `IGNORE_CASE`, each
/// where it is set. The option decides where it is given: it asks to ignore
/// case with the value `true` and not to with any other. Without the option
/// the variable decides, in the same way.
pub open spec fn ignores_case(flag: Option<Seq<char>>, env: Option<Seq<char>>) -> bool {
    match flag {
        Some(value) => value == "true"@,
        None => env == Some("true"@),
    }
}

/// The value that `options` holds for `ignore-case`, if any.
pub open spec fn ignore_case_flag(options: Map<Seq<char>, Seq<char>>) -> Option<Seq<char>> {
    if options.contains_key("ignore-case"@) {
        Some(options["ignore-case"@])
    } else {
        None
    }
}

/// What building a configuration from `args` comes to, with `env` the value
/// of the environment variable `IGNORE_CASE`.
pub open spec fn build_outcome(args: Seq<Seq<char>>, env: Option<Seq<char>>) -> Result<
    ConfigView,
    ArgError,
> {
    match parse_outcome(args, 2) {
        Err(e) => Err(e),
        Ok(cli) => if cli.positional_arguments.len() == 0 {
            Err(ArgError::QueryNotProvided)
        } else if cli.positional_arguments.len() == 1 {
            Err(ArgError::FilePathNotProvided)
        } else {
            Ok(
                ConfigView {
                    query: cli.positional_arguments[0],
                    file_path: cli.positional_arguments[1],
                    ignore_case: ignores_case(ignore_case_flag(cli.options), env),
                },
            )
        },
    }
}

/// Where no argument gives rise to an error, the number of positional
/// arguments decides: two give a configuration, with the first as the query
/// and the second as the file path; none lacks the query, one the file path,
/// and more than two are too many.
pub proof fn lemma_build_counts_positionals(args: Seq<Seq<char>>, env: Option<Seq<char>>)
    requires
        first_rejection(tokens_of(args)) is None,
    ensures
        ({
            let given = positionals(tokens_of(args));
            let outcome = build_outcome(args, env);
            &&& given.len() == 0 ==> outcome == Err::<ConfigView, ArgError>(
                ArgError::QueryNotProvided,
            )
            &&& given.len() == 1 ==> outcome == Err::<ConfigView, ArgError>(
                ArgError::FilePathNotProvided,
            )
            &&& given.len() == 2 ==> outcome is Ok && outcome->Ok_0.query == given[0]
                && outcome->Ok_0.file_path == given[1]
            &&& given.len() > 2 ==> outcome == Err::<ConfigView, ArgError>(
                ArgError::TooManyArguments,
            )
        }),
{
}

/// The option decides where it is given, whatever the environment holds;
/// the environment decides where the option is not given.
pub proof fn lemma_flag_overrides_env(
    value: Seq<char>,
    env: Option<Seq<char>>,
    other: Option<Seq<char>>,
)
    ensures
        ignores_case(Some(value), env) == ignores_case(Some(value), other),
        ignores_case(Some(value), env) == (value == "true"@),
        ignores_case(None, env) == (env == Some("true"@)),
{
}

/// Decides whether a search ignores case from the value of the option
/// `ignore-case` and that of the environment variable `IGNORE_CASE`.
pub fn resolve_ignore_case(flag: Option<&str>, env: Option<&str>) -> (out: bool)
    ensures
        out == ignores_case(flag.deep_view(), env.deep_view()),
{
    match flag {
        Some(value) => same_text(value, "true"),
        None => match env {
            Some(value) => same_text(value, "true"),
            None => false,
        },
    }
}

impl Config {
    /// Builds the configuration from the arguments of a command line, the
    /// first of which names the program, and from the value of the
    /// environment variable `IGNORE_CASE`, where it is set. The first
    /// positional argument is the query, the second the file path.
    pub fn build(args: &[String], ignore_case_env: Option<&str>) -> (out: Result<Config, ArgError>)
        ensures
            match out {
                Ok(config) => build_outcome(args.deep_view(), ignore_case_env.deep_view()) == Ok::<
                    ConfigView,
                    ArgError,
                >(config@),
                Err(e) => build_outcome(args.deep_view(), ignore_case_env.deep_view()) == Err::<
                    ConfigView,
                    ArgError,
                >(e),
            },
    {
        let cli = match Cli::parse(args, 2) {
            Ok(cli) => cli,
            Err(e) => {
                return Err(e);
            },
        };
        if cli.positional_arguments.len() == 0 {
            return Err(ArgError::QueryNotProvided);
        }
        if cli.positional_arguments.len() == 1 {
            return Err(ArgError::FilePathNotProvided);
        }
        let query = cli.positional_arguments[0].clone();
        let file_path = cli.positional_arguments[1].clone();
        let ignore_case = match cli.options.get("ignore-case") {
            Some(value) => resolve_ignore_case(Some(value.as_str()), ignore_case_env),
            None => resolve_ignore_case(None, ignore_case_env),
        };
        Ok(Config { query, file_path, ignore_case })
    }
}

} // verus!
