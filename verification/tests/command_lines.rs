use telepy_parser::args::command_named;
use telepy_parser::args::parse_benchmark_args;
use telepy_parser::args::parse_query_args;
use telepy_parser::args::parse_serve_args;
use telepy_parser::args::Command;

fn words(text: &str) -> Vec<String> {
    text.split_whitespace().map(|word| word.to_string()).collect()
}

#[test]
fn commands_have_names() {
    for (name, command) in [
        ("query", Some(Command::Query)),
        ("hierarchy", Some(Command::Hierarchy)),
        ("benchmark", Some(Command::Benchmark)),
        ("benchmark-hierarchy", Some(Command::Benchmark)),
        ("serve", Some(Command::Serve)),
        ("sync-typeshed", Some(Command::SyncTypeshed)),
        ("Query", None),
        ("", None),
    ] {
        assert_eq!(command_named(name), command, "{name}");
    }
}

#[test]
fn query_options_are_read_in_any_order() {
    let args = parse_query_args(&words("--pretty --class A --root /p --file a.py --symbol_name B")).unwrap();
    assert_eq!(args.root.as_deref(), Some("/p"));
    assert_eq!(args.file.as_deref(), Some("a.py"));
    assert_eq!(args.class_name.as_deref(), Some("B"));
    assert!(args.pretty && !args.debug);
    let args = parse_query_args(&words("--debug --file --root")).unwrap();
    assert_eq!(args.file.as_deref(), Some("--root"));
    assert!(args.debug && args.root.is_none() && args.class_name.is_none());
}

#[test]
fn query_options_that_are_wrong_are_refused() {
    for (line, message) in [
        ("--root", "missing value after --root"),
        ("--pretty --file", "missing value after --file"),
        ("--symbol_name", "missing value after --class"),
        ("--depth 3", "unknown argument: --depth"),
        ("stray", "unknown argument: stray"),
        ("--iterations 5", "unknown argument: --iterations"),
    ] {
        assert_eq!(parse_query_args(&words(line)).unwrap_err().message(), message);
    }
}

#[test]
fn benchmark_options_have_defaults() {
    let args = parse_benchmark_args(&words("")).unwrap();
    assert_eq!((args.iterations, args.warmups), (100, 10));
    assert!(args.root.is_none() && args.file.is_none() && args.class_name.is_none() && !args.pretty);
    let args = parse_benchmark_args(&words("--iterations 3 --warmups +0 --pretty --root r --file f --class c")).unwrap();
    assert_eq!((args.iterations, args.warmups), (3, 0));
    assert!(args.pretty);
    assert_eq!(args.root.as_deref(), Some("r"));
    assert_eq!(args.file.as_deref(), Some("f"));
    assert_eq!(args.class_name.as_deref(), Some("c"));
}

#[test]
fn benchmark_options_that_are_wrong_are_refused() {
    for (line, message) in [
        ("--iterations", "missing value after --iterations"),
        ("--warmups", "missing value after --warmups"),
        ("--iterations -1", "invalid integer for --iterations"),
        ("--warmups 1.5", "invalid integer for --warmups"),
        ("--warmups 99999999999999999999999", "invalid integer for --warmups"),
        ("--debug", "unknown argument: --debug"),
    ] {
        assert_eq!(parse_benchmark_args(&words(line)).unwrap_err().message(), message);
    }
}

#[test]
fn serve_takes_a_root() {
    assert_eq!(parse_serve_args(&words("--root /p --root /q")).unwrap().root.as_deref(), Some("/q"));
    assert_eq!(parse_serve_args(&words("")).unwrap().root, None);
    assert_eq!(
        parse_serve_args(&words("--root")).unwrap_err().message(),
        "missing value after --root"
    );
    assert_eq!(
        parse_serve_args(&words("--file x")).unwrap_err().message(),
        "unknown argument: --file"
    );
}
