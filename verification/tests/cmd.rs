use std::cell::RefCell;

use amina_core::cmd_manager::{
    ArgBuilder, ArgType, ArgsList, CmdBuilder, CmdError, CmdHandler, CmdManager,
};

struct RecordingHandler {
    calls: RefCell<Vec<u64>>,
}

impl CmdHandler for RecordingHandler {
    fn run(&self, args: &ArgsList) {
        self.calls.borrow_mut().push(args.get_u64("n"));
    }
}

fn sample_command() -> amina_core::cmd_manager::CmdDescription {
    CmdBuilder::new("count")
        .add_description("counts things")
        .add_arg(
            ArgBuilder::new("n", ArgType::U64)
                .add_description("how many")
                .build(),
        )
        .build()
}

#[test]
fn builders_describe_a_command() {
    let description = sample_command();
    assert_eq!(description.call_name, "count");
    assert_eq!(description.description.as_deref(), Some("counts things"));
    assert_eq!(description.args.len(), 1);
    assert_eq!(description.args[0].call_name, "n");
    assert_eq!(description.args[0].arg_type, ArgType::U64);
    assert_eq!(description.args[0].description.as_deref(), Some("how many"));
}

#[test]
fn builder_replaces_argument_with_same_name() {
    let description = CmdBuilder::new("c")
        .add_arg(ArgBuilder::new("x", ArgType::U64).build())
        .add_arg(ArgBuilder::new("x", ArgType::STRING).build())
        .build();
    assert_eq!(description.args.len(), 1);
    assert_eq!(description.args[0].arg_type, ArgType::STRING);
}

#[test]
fn args_list_stores_typed_values() {
    let mut args = ArgsList::new();
    args.put_u64("n", 7);
    args.put_bool("flag", true);
    args.put_string("name", "zed".to_string());
    assert_eq!(args.get_u64("n"), 7);
    assert!(args.get_bool("flag"));
    assert_eq!(args.get_string("name"), "zed");

    // a later put under the same name replaces the value
    args.put_u64("n", 9);
    assert_eq!(args.get_u64("n"), 9);
}

#[test]
fn manager_dispatches_by_name() {
    let manager: CmdManager<RecordingHandler> = CmdManager::new();
    let mut manager = manager;
    manager.add_command(
        sample_command(),
        RecordingHandler {
            calls: RefCell::new(Vec::new()),
        },
    );

    let mut args = ArgsList::new();
    args.put_u64("n", 3);
    assert_eq!(manager.handle("count", &args), Ok(()));
    assert_eq!(manager.handle("absent", &args), Err(CmdError::UnknownCommand));

    let names = manager.get_commands_description();
    assert_eq!(names.command_names, vec!["count".to_string()]);

    let description = manager.get_command_description("count").unwrap();
    assert_eq!(description.call_name, "count");
    assert!(manager.get_command_description("absent").is_err());
}
