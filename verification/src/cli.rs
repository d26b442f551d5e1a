//! Command-line tokens: positional arguments and options of the form
//! `--key=value`.

use crate::text::{len_before, same_text, split_at_first, strip_prefix};
use vstd::hash_map::StringHashMap;
use vstd::prelude::*;

verus! {

/// Why a list of arguments was turned down.
#[derive(Debug, Clone, Copy, PartialEq, Eq, Structural)]
pub enum ArgError {
    /// An option whose key is not a known one.
    InvalidOption,
    /// A known option without `=` and a value.
    MalformedOption,
    /// More positional arguments than the limit allows.
    TooManyArguments,
    /// No positional argument for the query.
    QueryNotProvided,
    /// No positional argument for the file path.
    FilePathNotProvided,
}

impl ArgError {
    /// The message that stands for this error.
    pub open spec fn text(self) -> Seq<char> {
        match self {
            ArgError::InvalidOption => "Invalid option."@,
            ArgError::MalformedOption => "Option malformed."@,
            ArgError::TooManyArguments => "Too many arguments."@,
            ArgError::QueryNotProvided => "Query not provided."@,
            ArgError::FilePathNotProvided => "File Path not provided."@,
        }
    }

    /// The message that stands for this error.
    pub fn message(&self) -> (out: &'static str)
        ensures
            out@ == self.text(),
    {
        match self {
            ArgError::InvalidOption => "Invalid option.",
            ArgError::MalformedOption => "Option malformed.",
            ArgError::TooManyArguments => "Too many arguments.",
            ArgError::QueryNotProvided => "Query not provided.",
            ArgError::FilePathNotProvided => "File Path not provided.",
        }
    }
}

/// A token that starts with two hyphens is an option; any other is a
/// positional argument.
pub open spec fn is_option(token: Seq<char>) -> bool {
    token.len() >= 2 && token[0] == '-' && token[1] == '-'
}

/// What stands in an option token behind its two hyphens.
pub open spec fn option_body(token: Seq<char>) -> Seq<char> {
    token.skip(2)
}

/// The key of an option token: what stands between its two hyphens and its
/// first `=`, or its end where it holds none.
pub open spec fn option_key(token: Seq<char>) -> Seq<char> {
    option_body(token).take(len_before(option_body(token), '='))
}

/// Whether an option token holds a `=`, and so a value.
pub open spec fn has_value(token: Seq<char>) -> bool {
    len_before(option_body(token), '=') < option_body(token).len()
}

/// The value of an option token: what stands behind its first `=`.
pub open spec fn option_value(token: Seq<char>) -> Seq<char> {
    option_body(token).skip(len_before(option_body(token), '=') + 1)
}

/// The keys of the options that are known.
pub open spec fn is_valid_option(key: Seq<char>) -> bool {
    key == "ignore-case"@
}

/// The error that a token gives rise to by itself, if any. The key of an
/// option is judged before its shape.
pub open spec fn rejection(token: Seq<char>) -> Option<ArgError> {
    if !is_option(token) {
        None
    } else if !is_valid_option(option_key(token)) {
        Some(ArgError::InvalidOption)
    } else if !has_value(token) {
        Some(ArgError::MalformedOption)
    } else {
        None
    }
}

/// The error of the first token that gives rise to one.
pub open spec fn first_rejection(tokens: Seq<Seq<char>>) -> Option<ArgError>
    decreases tokens.len(),
{
    if tokens.len() == 0 {
        None
    } else {
        match first_rejection(tokens.drop_last()) {
            Some(e) => Some(e),
            None => rejection(tokens.last()),
        }
    }
}

/// The positional arguments among `tokens`, in their order.
pub open spec fn positionals(tokens: Seq<Seq<char>>) -> Seq<Seq<char>> {
    tokens.filter(|token: Seq<char>| !is_option(token))
}

/// The options that `tokens` set, each under its key. Where a key occurs more
/// than once, its last value stands.
pub open spec fn settings(tokens: Seq<Seq<char>>) -> Map<Seq<char>, Seq<char>>
    decreases tokens.len(),
{
    if tokens.len() == 0 {
        Map::empty()
    } else {
        let earlier = settings(tokens.drop_last());
        let token = tokens.last();
        if is_option(token) && rejection(token) is None {
            earlier.insert(option_key(token), option_value(token))
        } else {
            earlier
        }
    }
}

/// What a parsed command line holds, as plain text.
pub struct CliView {
    pub options: Map<Seq<char>, Seq<char>>,
    pub positional_arguments: Seq<Seq<char>>,
}

/// The tokens of a command line: its arguments without the first, which
/// names the program.
pub open spec fn tokens_of(args: Seq<Seq<char>>) -> Seq<Seq<char>> {
    if args.len() == 0 {
        args
    } else {
        args.skip(1)
    }
}

/// What parsing `args` comes to, with at most `limit` positional arguments.
pub open spec fn parse_outcome(args: Seq<Seq<char>>, limit: nat) -> Result<CliView, ArgError> {
    let tokens = tokens_of(args);
    match first_rejection(tokens) {
        Some(e) => Err(e),
        None => if positionals(tokens).len() > limit {
            Err(ArgError::TooManyArguments)
        } else {
            Ok(CliView { options: settings(tokens), positional_arguments: positionals(tokens) })
        },
    }
}

/// A parsed command line.
pub struct Cli {
    /// The value of each option, under its key.
    pub options: StringHashMap<String>,
    /// The positional arguments, in their order.
    pub positional_arguments: Vec<String>,
}

impl View for Cli {
    type V = CliView;

    open spec fn view(&self) -> CliView {
        CliView {
            options: self.options@.map_values(|value: String| value@),
            positional_arguments: self.positional_arguments.deep_view(),
        }
    }
}

/// Once a token has given rise to an error, later tokens do not change it.
pub proof fn lemma_first_rejection_stays(tokens: Seq<Seq<char>>, upto: int)
    requires
        0 <= upto <= tokens.len(),
        first_rejection(tokens.take(upto)) is Some,
    ensures
        first_rejection(tokens) == first_rejection(tokens.take(upto)),
    decreases tokens.len() - upto,
{
    if upto == tokens.len() {
        assert(tokens.take(upto) =~= tokens);
    } else {
        assert(tokens.take(upto + 1).drop_last() =~= tokens.take(upto));
        lemma_first_rejection_stays(tokens, upto + 1);
    }
}

/// No token gives rise to an error exactly where `first_rejection` finds
/// none.
pub proof fn lemma_no_rejection(tokens: Seq<Seq<char>>)
    ensures
        first_rejection(tokens) is None <==> forall|i: int|
            0 <= i < tokens.len() ==> rejection(#[trigger] tokens[i]) is None,
    decreases tokens.len(),
{
    if tokens.len() > 0 {
        let front = tokens.drop_last();
        lemma_no_rejection(front);
        if first_rejection(tokens) is None {
            assert forall|i: int| 0 <= i < tokens.len() implies rejection(
                #[trigger] tokens[i],
            ) is None by {
                if i < front.len() {
                    assert(front[i] == tokens[i]);
                }
            }
        }
        if forall|i: int| 0 <= i < tokens.len() ==> rejection(#[trigger] tokens[i]) is None {
            assert forall|i: int| 0 <= i < front.len() implies rejection(
                #[trigger] front[i],
            ) is None by {
                assert(front[i] == tokens[i]);
            }
            assert(tokens.last() == tokens[tokens.len() - 1]);
        }
    }
}

/// The error of a token before which every token is accepted is the error
/// of the list.
pub proof fn lemma_first_rejection_at(tokens: Seq<Seq<char>>, at: int)
    requires
        0 <= at < tokens.len(),
        rejection(tokens[at]) is Some,
        forall|j: int| 0 <= j < at ==> rejection(#[trigger] tokens[j]) is None,
    ensures
        first_rejection(tokens) == rejection(tokens[at]),
{
    let front = tokens.take(at);
    assert forall|j: int| 0 <= j < front.len() implies rejection(#[trigger] front[j]) is None by {
        assert(front[j] == tokens[j]);
    }
    lemma_no_rejection(front);
    assert(tokens.take(at + 1).drop_last() =~= front);
    assert(tokens.take(at + 1).last() == tokens[at]);
    lemma_first_rejection_stays(tokens, at + 1);
}

/// Parsing fails with the error of the first argument that gives rise to
/// one, however many positional arguments there are: with "invalid option"
/// for an option of unknown key, with "malformed option" for a known one
/// without `=`.
pub proof fn lemma_parse_rejects(args: Seq<Seq<char>>, limit: nat, at: int)
    requires
        1 <= at < args.len(),
        rejection(args[at]) is Some,
        forall|j: int| 1 <= j < at ==> rejection(#[trigger] args[j]) is None,
    ensures
        parse_outcome(args, limit) == Err::<CliView, ArgError>(rejection(args[at])->0),
        is_option(args[at]),
        rejection(args[at]) == Some(
            if !is_valid_option(option_key(args[at])) {
                ArgError::InvalidOption
            } else {
                ArgError::MalformedOption
            },
        ),
{
    let tokens = tokens_of(args);
    assert(tokens[at - 1] == args[at]);
    assert forall|j: int| 0 <= j < at - 1 implies rejection(#[trigger] tokens[j]) is None by {
        assert(tokens[j] == args[j + 1]);
    }
    lemma_first_rejection_at(tokens, at - 1);
}

/// Where no argument gives rise to an error, parsing succeeds exactly where
/// the positional arguments are no more than `limit`, and fails with "too
/// many arguments" where they are more. What it gives then holds the
/// positional arguments in their order, and options of known keys only.
pub proof fn lemma_parse_accepts(args: Seq<Seq<char>>, limit: nat)
    requires
        forall|j: int| 1 <= j < args.len() ==> rejection(#[trigger] args[j]) is None,
    ensures
        positionals(tokens_of(args)).len() <= limit ==> parse_outcome(args, limit) == Ok::<
            CliView,
            ArgError,
        >(
            CliView {
                options: settings(tokens_of(args)),
                positional_arguments: positionals(tokens_of(args)),
            },
        ),
        positionals(tokens_of(args)).len() > limit ==> parse_outcome(args, limit) == Err::<
            CliView,
            ArgError,
        >(ArgError::TooManyArguments),
        forall|key: Seq<char>| #[trigger]
            settings(tokens_of(args)).contains_key(key) ==> is_valid_option(key),
{
    let tokens = tokens_of(args);
    assert forall|i: int| 0 <= i < tokens.len() implies rejection(#[trigger] tokens[i]) is None by {
        assert(tokens[i] == args[i + 1]);
    }
    lemma_no_rejection(tokens);
    lemma_settings_known(tokens);
}

/// Only options of known keys are set.
pub proof fn lemma_settings_known(tokens: Seq<Seq<char>>)
    ensures
        forall|key: Seq<char>| #[trigger]
            settings(tokens).contains_key(key) ==> is_valid_option(key),
    decreases tokens.len(),
{
    assert forall|key: Seq<char>| #[trigger]
        settings(tokens).contains_key(key) implies is_valid_option(key) by {
        if tokens.len() > 0 {
            lemma_settings_known(tokens.drop_last());
            let token = tokens.last();
            if is_option(token) && rejection(token) is None {
                assert(key == option_key(token) || settings(tokens.drop_last()).contains_key(
                    key,
                ));
            } else {
                assert(settings(tokens.drop_last()).contains_key(key));
            }
        }
    }
}

/// An option holds the value of the last accepted token that sets it.
pub proof fn lemma_settings_last(tokens: Seq<Seq<char>>, at: int)
    requires
        0 <= at < tokens.len(),
        is_option(tokens[at]),
        rejection(tokens[at]) is None,
        forall|j: int|
            at < j < tokens.len() && is_option(#[trigger] tokens[j]) && rejection(tokens[j])
                is None ==> option_key(tokens[j]) != option_key(tokens[at]),
    ensures
        settings(tokens).contains_key(option_key(tokens[at])),
        settings(tokens)[option_key(tokens[at])] == option_value(tokens[at]),
    decreases tokens.len(),
{
    if at < tokens.len() - 1 {
        let front = tokens.drop_last();
        let last = tokens.last();
        assert(front[at] == tokens[at]);
        assert forall|j: int|
            at < j < front.len() && is_option(#[trigger] front[j]) && rejection(front[j])
                is None implies option_key(front[j]) != option_key(tokens[at]) by {
            assert(front[j] == tokens[j]);
        }
        lemma_settings_last(front, at);
        assert(last == tokens[tokens.len() - 1]);
    }
}

/// Reads one token: nothing for a positional argument, key and value for an
/// option.
fn read_token(token: &str) -> (out: Result<Option<(String, String)>, ArgError>)
    ensures
        match out {
            Err(e) => rejection(token@) == Some(e),
            Ok(None) => !is_option(token@),
            Ok(Some((key, value))) => {
                &&& is_option(token@)
                &&& rejection(token@) is None
                &&& key@ == option_key(token@)
                &&& value@ == option_value(token@)
            },
        },
{
    proof {
        reveal_strlit("--");
        if is_option(token@) {
            assert("--"@ =~= token@.subrange(0, 2));
        }
        if "--"@.is_prefix_of(token@) {
            assert(token@[0] == token@.subrange(0, 2)[0]);
            assert(token@[1] == token@.subrange(0, 2)[1]);
        }
    }
    let body = match strip_prefix(token, "--") {
        Some(body) => body,
        None => {
            return Ok(None);
        },
    };
    let (key, value) = split_at_first(body, '=');
    if !same_text(key, "ignore-case") {
        return Err(ArgError::InvalidOption);
    }
    match value {
        Some(value) => Ok(Some((key.to_owned(), value.to_owned()))),
        None => Err(ArgError::MalformedOption),
    }
}

impl Cli {
    /// Parses the arguments of a command line, the first of which names the
    /// program and is passed over. Fails with the error of the first token
    /// that is an unknown or malformed option; with none such, fails where
    /// there are more than `limit` positional arguments.
    pub fn parse(args: &[String], limit: usize) -> (out: Result<Cli, ArgError>)
        ensures
            match out {
                Ok(cli) => parse_outcome(args.deep_view(), limit as nat) == Ok::<CliView, ArgError>(
                    cli@,
                ),
                Err(e) => parse_outcome(args.deep_view(), limit as nat) == Err::<CliView, ArgError>(
                    e,
                ),
            },
    {
        let ghost tokens = tokens_of(args.deep_view());
        let ghost positional = |token: Seq<char>| !is_option(token);
        let mut options: StringHashMap<String> = StringHashMap::new();
        let mut positional_arguments: Vec<String> = Vec::new();
        let mut i: usize = 1;
        proof {
            assert(options@.map_values(|value: String| value@) =~= settings(tokens.take(0)));
            assert(positional_arguments.deep_view() =~= positionals(tokens.take(0)));
        }
        while i < args.len()
            invariant
                1 <= i,
                i == 1 || i <= args@.len(),
                tokens == tokens_of(args.deep_view()),
                positional == |token: Seq<char>| !is_option(token),
                first_rejection(tokens.take(i - 1)) is None,
                positional_arguments.deep_view() == positionals(tokens.take(i - 1)),
                options@.map_values(|value: String| value@) == settings(tokens.take(i - 1)),
            decreases args@.len() - i,
        {
            let ghost seen = tokens.take(i - 1);
            let ghost token = tokens[i - 1];
            let ghost before = positional_arguments.deep_view();
            let ghost set = options@;
            proof {
                assert(token == args[i as int]@);
                assert(tokens.take(i as int) =~= seen.push(token));
                assert(tokens.take(i as int).drop_last() =~= seen);
                seen.lemma_filter_push(token, positional);
            }
            match read_token(args[i].as_str()) {
                Err(e) => {
                    proof {
                        lemma_first_rejection_stays(tokens, i as int);
                    }
                    return Err(e);
                },
                Ok(None) => {
                    positional_arguments.push(args[i].clone());
                    assert(positional_arguments.deep_view() =~= before.push(token));
                },
                Ok(Some((key, value))) => {
                    options.insert(key, value);
                    assert(options@.map_values(|value: String| value@) =~= set.map_values(
                        |value: String| value@,
                    ).insert(key@, value@));
                },
            }
            i += 1;
        }
        proof {
            assert(args.deep_view().len() == args@.len());
            assert(tokens.take(i - 1) =~= tokens);
        }
        if positional_arguments.len() > limit {
            return Err(ArgError::TooManyArguments);
        }
        Ok(Cli { options, positional_arguments })
    }
}

} // verus!
