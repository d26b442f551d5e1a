use littlegrep::cli::{ArgError, Cli};
use littlegrep::config::{resolve_ignore_case, Config};

fn args(tokens: &[&str]) -> Vec<String> {
    let mut out = vec![String::new()];
    for token in tokens {
        out.push(token.to_string());
    }
    out
}

#[test]
fn build_config_successfully() {
    let config = Config::build(
        &[
            String::new(),
            "to".to_string(),
            "poem.txt".to_string(),
            "--ignore-case=true".to_string(),
        ],
        None,
    )
    .unwrap();

    assert_eq!(config.query, "to");
    assert_eq!(config.file_path, "poem.txt");
    assert_eq!(config.ignore_case, true);
}

#[test]
fn query_not_provided() {
    let config = Config::build(&[String::new()], None);

    assert_eq!(config.err().unwrap().message(), "Query not provided.");
}

#[test]
fn file_path_not_provided() {
    let config = Config::build(&[String::new(), "to".to_string()], None);

    assert_eq!(config.err().unwrap().message(), "File Path not provided.");
}

#[test]
fn ignore_case_flag_true_and_env_var_not_specified() {
    let config = Config::build(
        &[
            String::new(),
            "to".to_string(),
            "poem.txt".to_string(),
            "--ignore-case=true".to_string(),
        ],
        None,
    );

    assert!(config.unwrap().ignore_case);
}

#[test]
fn ignore_case_env_var_true_and_flag_not_specified() {
    let config = Config::build(
        &[String::new(), "to".to_string(), "poem.txt".to_string()],
        Some("true"),
    );

    assert!(config.unwrap().ignore_case);
}

#[test]
fn ignore_case_env_var_and_flag_true() {
    let config = Config::build(
        &[
            String::new(),
            "to".to_string(),
            "poem.txt".to_string(),
            "--ignore-case=true".to_string(),
        ],
        Some("true"),
    );

    assert!(config.unwrap().ignore_case);
}

#[test]
fn ignore_case_env_var_and_flag_false() {
    let config = Config::build(
        &[
            String::new(),
            "to".to_string(),
            "poem.txt".to_string(),
            "--ignore-case=false".to_string(),
        ],
        Some("false"),
    );

    assert!(!config.unwrap().ignore_case);
}

#[test]
fn ignore_case_env_var_false_and_flag_true() {
    let config = Config::build(
        &[
            String::new(),
            "to".to_string(),
            "poem.txt".to_string(),
            "--ignore-case=true".to_string(),
        ],
        Some("false"),
    );

    assert!(config.unwrap().ignore_case);
}

#[test]
fn ignore_case_env_var_true_and_flag_false() {
    let config = Config::build(
        &[
            String::new(),
            "to".to_string(),
            "poem.txt".to_string(),
            "--ignore-case=false".to_string(),
        ],
        Some("true"),
    );

    assert!(!config.unwrap().ignore_case);
}

#[test]
fn ignore_case_env_var_false_and_flag_not_specified() {
    let config = Config::build(&args(&["to", "poem.txt"]), Some("false"));

    assert!(!config.unwrap().ignore_case);
}

#[test]
fn ignore_case_neither_specified() {
    let config = Config::build(&args(&["to", "poem.txt"]), None);

    assert!(!config.unwrap().ignore_case);
}

#[test]
fn ignore_case_takes_only_the_exact_word_true() {
    for value in ["TRUE", "True", "1", "yes", "", " true", "true "] {
        let flag = format!("--ignore-case={value}");
        let config = Config::build(&args(&["to", "poem.txt", &flag]), Some("true"));
        assert!(!config.unwrap().ignore_case);
        let config = Config::build(&args(&["to", "poem.txt"]), Some(value));
        assert!(!config.unwrap().ignore_case);
    }
}

#[test]
fn ignore_case_is_resolved_flag_first() {
    assert!(resolve_ignore_case(Some("true"), None));
    assert!(resolve_ignore_case(None, Some("true")));
    assert!(resolve_ignore_case(Some("true"), Some("true")));
    assert!(!resolve_ignore_case(Some("false"), Some("true")));
    assert!(resolve_ignore_case(Some("true"), Some("false")));
    assert!(!resolve_ignore_case(None, Some("false")));
    assert!(!resolve_ignore_case(None, None));
    assert!(!resolve_ignore_case(Some("false"), None));
    assert!(!resolve_ignore_case(Some(""), Some("true")));
}

#[test]
fn two_positional_arguments_succeed() {
    let config = Config::build(&args(&["to", "poem.txt"]), None).unwrap();

    assert_eq!(config.query, "to");
    assert_eq!(config.file_path, "poem.txt");
    assert!(!config.ignore_case);
}

#[test]
fn three_positional_arguments_are_too_many() {
    let config = Config::build(&args(&["to", "poem.txt", "more"]), None);

    assert_eq!(config.err(), Some(ArgError::TooManyArguments));
}

#[test]
fn option_may_stand_anywhere() {
    for tokens in [
        ["--ignore-case=true", "to", "poem.txt"],
        ["to", "--ignore-case=true", "poem.txt"],
        ["to", "poem.txt", "--ignore-case=true"],
    ] {
        let config = Config::build(&args(&tokens), None).unwrap();
        assert_eq!(config.query, "to");
        assert_eq!(config.file_path, "poem.txt");
        assert!(config.ignore_case);
    }
}

#[test]
fn no_arguments_at_all() {
    assert_eq!(Config::build(&[], None).err(), Some(ArgError::QueryNotProvided));
    let cli = Cli::parse(&[], 2).ok().unwrap();
    assert!(cli.positional_arguments.is_empty());
    assert!(cli.options.is_empty());
}

#[test]
fn first_argument_is_passed_over() {
    let given = ["--bogus".to_string(), "to".to_string(), "poem.txt".to_string()];
    let config = Config::build(&given, None).unwrap();
    assert_eq!(config.query, "to");
    assert_eq!(config.file_path, "poem.txt");
}

#[test]
fn unknown_option_is_invalid() {
    let config = Config::build(&args(&["to", "poem.txt", "--bogus=1"]), None);
    assert_eq!(config.err(), Some(ArgError::InvalidOption));
    for token in ["--bogus", "--", "--=", "--ignore-cas=true", "--ignore-case-=true", "--Ignore-Case=true", "---ignore-case=true"] {
        let cli = Cli::parse(&args(&[token]), 2);
        assert_eq!(cli.err(), Some(ArgError::InvalidOption));
    }
}

#[test]
fn option_without_value_is_malformed() {
    let config = Config::build(&args(&["to", "poem.txt", "--ignore-case"]), None);
    assert_eq!(config.err(), Some(ArgError::MalformedOption));
    assert_eq!(config_message(&["--ignore-case"]), "Option malformed.");
}

fn config_message(tokens: &[&str]) -> &'static str {
    Config::build(&args(tokens), None).err().unwrap().message()
}

#[test]
fn first_offending_token_decides_the_error() {
    assert_eq!(config_message(&["--bogus=1", "--ignore-case"]), "Invalid option.");
    assert_eq!(config_message(&["--ignore-case", "--bogus=1"]), "Option malformed.");
    assert_eq!(config_message(&["a", "b", "c", "--bogus=1"]), "Invalid option.");
    assert_eq!(config_message(&["a", "b", "c", "--ignore-case"]), "Option malformed.");
    assert_eq!(config_message(&["a", "b", "c"]), "Too many arguments.");
    assert_eq!(config_message(&["--ignore-case=true"]), "Query not provided.");
    assert_eq!(config_message(&["a", "--ignore-case=true"]), "File Path not provided.");
}

#[test]
fn error_messages() {
    assert_eq!(ArgError::InvalidOption.message(), "Invalid option.");
    assert_eq!(ArgError::MalformedOption.message(), "Option malformed.");
    assert_eq!(ArgError::TooManyArguments.message(), "Too many arguments.");
    assert_eq!(ArgError::QueryNotProvided.message(), "Query not provided.");
    assert_eq!(ArgError::FilePathNotProvided.message(), "File Path not provided.");
}

#[test]
fn parse_splits_options_from_positional_arguments() {
    let cli = Cli::parse(&args(&["a", "--ignore-case=yes", "b", "-c", "d=e"]), 4).ok().unwrap();
    assert_eq!(cli.positional_arguments, vec!["a", "b", "-c", "d=e"]);
    assert_eq!(cli.options.len(), 1);
    assert_eq!(cli.options.get("ignore-case"), Some(&"yes".to_string()));
    assert_eq!(cli.options.get("--ignore-case"), None);
}

#[test]
fn parse_splits_an_option_at_its_first_equals_sign() {
    let cli = Cli::parse(&args(&["--ignore-case=a=b"]), 0).ok().unwrap();
    assert_eq!(cli.options.get("ignore-case"), Some(&"a=b".to_string()));
    let cli = Cli::parse(&args(&["--ignore-case="]), 0).ok().unwrap();
    assert_eq!(cli.options.get("ignore-case"), Some(&String::new()));
}

#[test]
fn parse_keeps_the_last_value_of_an_option() {
    let cli = Cli::parse(&args(&["--ignore-case=true", "--ignore-case=false"]), 0).ok().unwrap();
    assert_eq!(cli.options.len(), 1);
    assert_eq!(cli.options.get("ignore-case"), Some(&"false".to_string()));
    let config = Config::build(
        &args(&["--ignore-case=false", "to", "poem.txt", "--ignore-case=true"]),
        None,
    );
    assert!(config.unwrap().ignore_case);
}

#[test]
fn parse_holds_positional_arguments_to_the_limit() {
    assert!(Cli::parse(&args(&["a", "b", "c"]), 3).is_ok());
    assert_eq!(Cli::parse(&args(&["a", "b", "c"]), 2).err(), Some(ArgError::TooManyArguments));
    assert_eq!(Cli::parse(&args(&["a"]), 0).err(), Some(ArgError::TooManyArguments));
    assert!(Cli::parse(&args(&[]), 0).is_ok());
    assert!(Cli::parse(&args(&["--ignore-case=true"]), 0).is_ok());
}
