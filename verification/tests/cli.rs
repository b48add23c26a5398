use std::cell::RefCell;

use amina_core::cli::{
    dispatch_line, parse, parse_raw, parse_u64, split_line, CliError, CmdManagerAdapter,
    CmdManagerCliAdapter, InputHandler, ParseError,
};
use amina_core::cmd_manager::{ArgBuilder, ArgType, ArgsList, CmdBuilder, CmdHandler, CmdManager};

#[test]
fn raw_parser_reads_plain_and_quoted_values() {
    let pairs = parse_raw("id:42 name:'some dir' flag:y");
    assert_eq!(
        pairs,
        vec![
            ("id".to_string(), "42".to_string()),
            ("name".to_string(), "some dir".to_string()),
            ("flag".to_string(), "y".to_string()),
        ]
    );
}

#[test]
fn raw_parser_keeps_trailing_unquoted_value() {
    assert_eq!(parse_raw("a:1"), vec![("a".to_string(), "1".to_string())]);
}

#[test]
fn raw_parser_discards_unterminated_quoted_value() {
    assert_eq!(parse_raw("a:'oops"), vec![]);
}

#[test]
fn raw_parser_handles_empty_and_spaces() {
    assert_eq!(parse_raw(""), vec![]);
    assert_eq!(parse_raw("   "), vec![]);
}

#[test]
fn u64_parser_matches_the_grammar() {
    assert_eq!(parse_u64("0"), Some(0));
    assert_eq!(parse_u64("42"), Some(42));
    assert_eq!(parse_u64("+7"), Some(7));
    assert_eq!(parse_u64("18446744073709551615"), Some(u64::MAX));
    assert_eq!(parse_u64("18446744073709551616"), None);
    assert_eq!(parse_u64(""), None);
    assert_eq!(parse_u64("+"), None);
    assert_eq!(parse_u64("4x"), None);
    assert_eq!(parse_u64("-3"), None);
}

fn descriptions() -> Vec<amina_core::cmd_manager::ArgDescription> {
    vec![
        ArgBuilder::new("id", ArgType::U64).build(),
        ArgBuilder::new("sure", ArgType::BOOL).build(),
        ArgBuilder::new("name", ArgType::STRING).build(),
    ]
}

#[test]
fn typed_parse_converts_each_described_argument() {
    let args = parse("id:42 sure:y name:'a b'", &descriptions()).unwrap();
    assert_eq!(args.get_u64("id"), 42);
    assert!(args.get_bool("sure"));
    assert_eq!(args.get_string("name"), "a b");
}

#[test]
fn typed_parse_reports_each_failure() {
    assert_eq!(
        parse("sure:y name:'x'", &descriptions()).err(),
        Some(ParseError::MissingArg)
    );
    assert_eq!(
        parse("id:4x sure:y name:'x'", &descriptions()).err(),
        Some(ParseError::InvalidU64)
    );
    assert_eq!(
        parse("id:4 sure:maybe name:'x'", &descriptions()).err(),
        Some(ParseError::InvalidBool)
    );
}

#[test]
fn typed_parse_takes_the_latest_value_of_a_repeated_name() {
    let descs = vec![ArgBuilder::new("id", ArgType::U64).build()];
    let args = parse("id:1 id:2", &descs).unwrap();
    assert_eq!(args.get_u64("id"), 2);
}

#[test]
fn split_line_cuts_at_the_first_space() {
    assert_eq!(
        split_line("greet name:'zed'"),
        ("greet".to_string(), "name:'zed'".to_string())
    );
    assert_eq!(split_line("quit"), ("quit".to_string(), "".to_string()));
}

struct CountingHandler {
    seen: RefCell<Vec<u64>>,
}

impl CmdHandler for CountingHandler {
    fn run(&self, args: &ArgsList) {
        self.seen.borrow_mut().push(args.get_u64("n"));
    }
}

fn registry() -> CmdManager<CountingHandler> {
    let mut manager = CmdManager::new();
    manager.add_command(
        CmdBuilder::new("count")
            .add_arg(ArgBuilder::new("n", ArgType::U64).build())
            .build(),
        CountingHandler {
            seen: RefCell::new(Vec::new()),
        },
    );
    manager
}

#[test]
fn dispatch_runs_the_named_command() {
    let manager = registry();
    assert_eq!(dispatch_line(&manager, "count n:5"), Ok(()));
    assert_eq!(
        dispatch_line(&manager, "absent n:5"),
        Err(CliError::UnknownCommand)
    );
    assert_eq!(
        dispatch_line(&manager, "count n:x"),
        Err(CliError::BadArgs(ParseError::InvalidU64))
    );
    assert_eq!(
        dispatch_line(&manager, "count"),
        Err(CliError::BadArgs(ParseError::MissingArg))
    );
    let wrapper = &manager.get_cmd_description()[0].1;
    assert_eq!(wrapper.handler.seen.borrow().as_slice(), &[5]);
}

#[test]
fn adapters_route_lines_to_the_registry() {
    let manager = registry();
    {
        let borrowed = CmdManagerCliAdapter::new(&manager);
        assert_eq!(borrowed.handle_line("count n:1"), Ok(()));
    }
    let owned = CmdManagerAdapter::new(manager);
    assert_eq!(owned.handle_line("count n:2"), Ok(()));
    owned.handle("count n:3");
    owned.handle("garbage line");
    let manager = owned.into_inner();
    let wrapper = &manager.get_cmd_description()[0].1;
    assert_eq!(wrapper.handler.seen.borrow().as_slice(), &[1, 2, 3]);
}
