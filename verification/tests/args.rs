use sshdconfig::args::{Args, ArgsError, SubCommand};

fn words(list: &[&str]) -> Vec<String> {
    list.iter().map(|s| s.to_string()).collect()
}

#[test]
fn test_args_list() {
    let args = Args::new(words(&["config", "list", "myfilter"]), "".to_string(), false).unwrap();
    assert_eq!(args.subcommand, SubCommand::List);
    assert_eq!(args.resource, "");
    assert_eq!(args.filter, "myfilter");
    assert_eq!(args.stdin, "");
    assert_eq!(args.no_cache, false);
}

#[test]
fn test_args_get() {
    let args = Args::new(words(&["config", "get", "myresource"]), "abc".to_string(), false).unwrap();
    assert_eq!(args.subcommand, SubCommand::Get);
    assert_eq!(args.resource, "myresource");
    assert_eq!(args.filter, "");
    assert_eq!(args.stdin, "abc");
    assert_eq!(args.no_cache, false);
}

#[test]
fn test_args_set() {
    let args = Args::new(words(&["config", "set", "myresource"]), "abc".to_string(), false).unwrap();
    assert_eq!(args.subcommand, SubCommand::Assign);
    assert_eq!(args.resource, "myresource");
    assert_eq!(args.filter, "");
    assert_eq!(args.stdin, "abc");
    assert_eq!(args.no_cache, false);
}

#[test]
fn test_args_test() {
    let args = Args::new(words(&["config", "test", "myresource"]), "abc".to_string(), false).unwrap();
    assert_eq!(args.subcommand, SubCommand::Test);
    assert_eq!(args.resource, "myresource");
    assert_eq!(args.filter, "");
    assert_eq!(args.stdin, "abc");
    assert_eq!(args.no_cache, false);
}

#[test]
fn test_args_flushcache() {
    let args = Args::new(words(&["config", "flushcache"]), "".to_string(), false).unwrap();
    assert_eq!(args.subcommand, SubCommand::FlushCache);
    assert_eq!(args.resource, "");
    assert_eq!(args.filter, "");
    assert_eq!(args.stdin, "");
    assert_eq!(args.no_cache, false);
}

#[test]
fn args_without_subcommand_are_refused() {
    assert_eq!(Args::new(words(&["config"]), String::new(), true).unwrap_err(), ArgsError::NoSubcommand);
    assert_eq!(Args::new(words(&[]), String::new(), true).unwrap_err(), ArgsError::NoSubcommand);
}

#[test]
fn args_with_unknown_subcommand_are_refused() {
    assert_eq!(
        Args::new(words(&["config", "remove"]), String::new(), true).unwrap_err(),
        ArgsError::InvalidSubcommand
    );
}

#[test]
fn args_subcommand_in_any_case() {
    let args = Args::new(words(&["config", "GeT", "r"]), String::new(), true).unwrap();
    assert_eq!(args.subcommand, SubCommand::Get);
    assert_eq!(args.resource, "r");
}

#[test]
fn args_help_is_reported() {
    assert_eq!(
        Args::new(words(&["config", "get", "-h"]), String::new(), true).unwrap_err(),
        ArgsError::HelpRequested
    );
    assert_eq!(
        Args::new(words(&["config", "list", "--HELP"]), String::new(), true).unwrap_err(),
        ArgsError::HelpRequested
    );
}

#[test]
fn args_nocache_is_set() {
    let args = Args::new(words(&["config", "get", "-n", "res"]), String::new(), true).unwrap();
    assert_eq!(args.no_cache, true);
    assert_eq!(args.resource, "res");
    let args = Args::new(words(&["config", "flushcache", "--nocache"]), String::new(), true).unwrap();
    assert_eq!(args.no_cache, true);
}

#[test]
fn args_flushcache_takes_no_argument() {
    assert_eq!(
        Args::new(words(&["config", "flushcache", "x"]), String::new(), true).unwrap_err(),
        ArgsError::FlushCacheArguments
    );
}

#[test]
fn args_one_filter_and_one_resource() {
    assert_eq!(
        Args::new(words(&["config", "list", "a", "b"]), String::new(), true).unwrap_err(),
        ArgsError::ManyFilters
    );
    assert_eq!(
        Args::new(words(&["config", "set", "a", "b"]), String::new(), true).unwrap_err(),
        ArgsError::ManyResources
    );
}

#[test]
fn args_terminal_input_is_not_read() {
    let args = Args::new(words(&["config", "get", "r"]), "typed".to_string(), true).unwrap();
    assert_eq!(args.stdin, "");
}

#[test]
fn args_resource_keeps_its_case() {
    let args = Args::new(words(&["config", "get", "MyResource"]), String::new(), true).unwrap();
    assert_eq!(args.resource, "MyResource");
}
