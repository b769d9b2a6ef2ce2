use pi_trading_lib::parser::{same_text, starts_with_dashes, Arg, Parser};

fn line(tokens: &[&str]) -> Vec<String> {
    tokens.iter().map(|t| t.to_string()).collect()
}

#[test]
fn specification_is_checked() {
    assert_eq!(Arg::with_name("a").check_spec(), Err("Bad spec".to_string()));
    assert_eq!(Arg::with_name("a").takes_value().check_spec(), Ok(()));
    assert_eq!(Arg::with_name("a").takes_value().required().check_spec(), Err("Bad Spec".to_string()));
    assert_eq!(Arg::with_name("a").takes_value().default("x").required().check_spec(), Ok(()));
    assert_eq!(Arg::with_name("a").default("x").check_spec(), Ok(()));
    assert_eq!(Arg::with_name("a").default("x").multiple().check_spec(), Err("Bad spec".to_string()));
    assert_eq!(Arg::with_name("a").takes_value().multiple().check_spec(), Ok(()));
}

#[test]
fn parser_is_created_when_every_specification_is_accepted() {
    assert!(Parser::new().create().is_ok());
    assert!(Parser::new().arg(Arg::with_name("a").takes_value()).create().is_ok());
    let refused = Parser::new()
        .arg(Arg::with_name("a").takes_value())
        .arg(Arg::with_name("b").takes_value().required())
        .arg(Arg::with_name("c"))
        .create();
    assert_eq!(refused.err(), Some("Bad Spec".to_string()));
}

#[test]
fn values_are_parsed() {
    let args = line(&["prog", "--input", "in.csv", "--output", "out.csv"]);
    let parser = Parser::new()
        .arg(Arg::with_name("input").takes_value())
        .arg(Arg::with_name("output").takes_value())
        .arg(Arg::with_name("level").takes_value().default("3"))
        .parse_args(&args)
        .unwrap();
    assert_eq!(parser.get_str_arg("input"), Ok("in.csv"));
    assert_eq!(parser.get_str_arg("output"), Ok("out.csv"));
    assert_eq!(parser.get_str_arg("level"), Ok("3"));
    assert_eq!(parser.get_str_arg("other"), Err("Unrecognized argument: other".to_string()));
    assert_eq!(parser.find("output"), Some(1));
    assert_eq!(parser.find("nothing"), None);
}

#[test]
fn parsing_fails_with_a_message() {
    let spec = || Parser::new().arg(Arg::with_name("input").takes_value()).arg(Arg::with_name("flag").default("x"));
    assert_eq!(
        spec().parse_args(&line(&["prog", "input"])).err(),
        Some("Arguments must start with '--': input".to_string())
    );
    assert_eq!(
        spec().parse_args(&line(&["prog", "--"])).err(),
        Some("Arguments must start with '--': --".to_string())
    );
    assert_eq!(
        spec().parse_args(&line(&["prog", "--other", "1"])).err(),
        Some("Unrecognized argument: --other".to_string())
    );
    assert_eq!(
        spec().parse_args(&line(&["prog", "--input"])).err(),
        Some("No values to parse for: input".to_string())
    );
    assert_eq!(
        spec().parse_args(&line(&["prog", "--input", "--flag"])).err(),
        Some("No values to parse for: input".to_string())
    );
    assert_eq!(
        spec().parse_args(&line(&["prog", "--input", "a", "b"])).err(),
        Some("Arguments must start with '--': b".to_string())
    );
    assert!(spec().parse_args(&line(&["prog"])).is_ok());
    assert!(spec().parse_args(&line(&["prog", "--flag", "--input", "a", "--flag"])).is_ok());
}

#[test]
fn argument_given_twice_keeps_its_first_value() {
    let args = line(&["prog", "--input", "a", "--input", "--flag"]);
    let parser = Parser::new()
        .arg(Arg::with_name("input").takes_value())
        .arg(Arg::with_name("flag").default("x"))
        .parse_args(&args)
        .unwrap();
    assert_eq!(parser.get_str_arg("input"), Ok("a"));
    assert_eq!(parser.get_str_arg("flag"), Ok("x"));
}

#[test]
fn repeated_values_are_collected() {
    let args = line(&["prog", "--files", "a", "b", "c", "--one", "d"]);
    let parser = Parser::new()
        .arg(Arg::with_name("files").takes_value().multiple())
        .arg(Arg::with_name("one").takes_value())
        .parse_args(&args)
        .unwrap();
    assert_eq!(parser.get_str_arg("files"), Err("sadge".to_string()));
    assert_eq!(parser.get_str_arg("one"), Ok("d"));
}

#[test]
fn argument_consumes_its_values() {
    let args = line(&["a", "b", "--c", "d"]);
    let mut single = Arg::with_name("x").takes_value();
    assert_eq!(single.consume(&args, 0), Ok(1));
    assert_eq!(single.get_str(), Ok("a"));
    assert_eq!(single.consume(&args, 1), Ok(1));
    assert_eq!(single.get_str(), Ok("a"));

    let mut many = Arg::with_name("x").takes_value().multiple();
    assert_eq!(many.consume(&args, 0), Ok(2));
    assert_eq!(many.consume(&args, 2), Ok(2));
    assert_eq!(many.consume(&args, 3), Ok(4));
    assert_eq!(many.get_str(), Err("sadge".to_string()));

    let mut none = Arg::with_name("x").takes_value();
    assert_eq!(none.consume(&args, 2), Err("No values to parse for: x".to_string()));
    assert_eq!(none.consume(&args, 4), Err("No values to parse for: x".to_string()));
    assert_eq!(none.get_str(), Err("sadge".to_string()));

    let mut flag = Arg::with_name("x");
    assert_eq!(flag.consume(&args, 0), Ok(0));
    assert_eq!(flag.get_str(), Err("sadge".to_string()));
}

#[test]
fn apply_runs_the_given_function() {
    let parser = Parser::new().apply(|p| p.arg(Arg::with_name("a").takes_value()));
    assert_eq!(parser.find("a"), Some(0));
    let mut help = vec![1u8];
    parser.print_help(&mut help);
    assert_eq!(help, vec![1u8]);
}

#[test]
fn text_helpers() {
    assert!(same_text("abc", "abc"));
    assert!(!same_text("abc", "abd"));
    assert!(!same_text("abc", "ab"));
    assert!(starts_with_dashes("--"));
    assert!(starts_with_dashes("--x"));
    assert!(!starts_with_dashes("-x"));
    assert!(!starts_with_dashes("-"));
    assert!(!starts_with_dashes(""));
    assert!(!starts_with_dashes("x--"));
}
