use blazekvdb::commands::delete::DeleteCommand;
use blazekvdb::commands::exist::ExistCommand;
use blazekvdb::commands::get::GetCommand;
use blazekvdb::commands::ping::PingCommand;
use blazekvdb::commands::scan::ScanCommand;
use blazekvdb::commands::set::SetCommand;
use blazekvdb::commands::stats::StatsCommand;
use blazekvdb::commands::{Command, CommandDispatcher, CommandError, CommandResponse};
use blazekvdb::storage::memory::MemoryEngine;
use blazekvdb::storage::StorageConfig;

fn engine() -> MemoryEngine {
    MemoryEngine::new(StorageConfig::default())
}

#[test]
fn test_delete_validation() {
    let cmd = DeleteCommand::new("".to_string());
    assert!(cmd.validate().is_err());
}

#[test]
fn test_delete_execute() {
    let mut engine = engine();
    engine.set("key", b"value1".to_vec()).unwrap();
    let cmd = DeleteCommand::new("key".to_string());
    let response = Command::Delete(cmd).execute(&mut engine);
    assert_eq!(response, CommandResponse::Bool(true))
}

#[test]
fn test_exist_validation() {
    let cmd = ExistCommand::new("".to_string());
    assert!(cmd.validate().is_err());
}

#[test]
fn test_exist_execute() {
    let mut engine = engine();
    engine.set("key1", b"value1".to_vec()).unwrap();
    let cmd = ExistCommand::new("key1".to_string());
    let response = Command::Exist(cmd).execute(&mut engine);
    assert_eq!(response, CommandResponse::Bool(true));
}

#[test]
fn test_get_validation() {
    let cmd = GetCommand::new("".to_string());
    assert!(cmd.validate().is_err());
}

#[test]
fn test_get_execute() {
    let mut engine = engine();
    engine.set("key1", b"value1".to_vec()).unwrap();
    let cmd = GetCommand::new("key1".to_string());
    let response = Command::Get(cmd).execute(&mut engine);
    assert_eq!(response, CommandResponse::Value(b"value1".to_vec()));
}

#[test]
fn test_set_validation() {
    let cmd = SetCommand::new("".to_string(), Vec::<u8>::new());
    assert!(cmd.validate().is_err());
}

#[test]
fn test_set_execute() {
    let mut engine = engine();
    let cmd = SetCommand::new("key".to_string(), b"value1".to_vec());
    let response = Command::Put(cmd).execute(&mut engine);
    assert_eq!(response, CommandResponse::Success)
}

#[test]
fn test_ping_command() {
    let mut engine = engine();
    let response = Command::Ping.execute(&mut engine);
    assert_eq!(response, CommandResponse::Pong)
}

#[test]
fn test_scan_execute() {
    let mut engine = engine();
    engine.set("key1", b"value1".to_vec()).unwrap();
    engine.set("key2", b"value1".to_vec()).unwrap();
    let cmd = ScanCommand::new("key".to_string());
    let mut response = Command::Scan(cmd).execute(&mut engine);
    if let CommandResponse::Keys(ref mut keys) = response {
        keys.sort();
    }
    assert_eq!(
        response,
        CommandResponse::Keys({
            let mut keys = vec!["key1".to_string(), "key2".to_string()];
            keys.sort();
            keys
        })
    );
}

#[test]
fn test_stats_execute() {
    let mut engine = engine();
    engine.set("key1", b"value1".to_vec()).unwrap();
    engine.set("key2", b"value2".to_vec()).unwrap();
    engine.set("key3", b"value3".to_vec()).unwrap();
    let response = Command::Stats.execute(&mut engine);
    if let CommandResponse::Stats { total_keys, total_operations, hits, misses, memory_usage } = response {
        assert!(total_keys != 0);
        assert!(total_operations != 0);
        assert_eq!(hits + misses, 0);
        assert!(memory_usage != 0)
    } else {
        panic!("Expected Stats response");
    }
}

#[test]
fn test_command_dispatcher() {
    let mut dispatcher = CommandDispatcher::new(engine());

    let ping_response = dispatcher.execute(Command::Ping);
    assert_eq!(ping_response, CommandResponse::Pong);

    let set_command = SetCommand::new("key1".to_string(), b"value1".to_vec());
    let set_response = dispatcher.execute(Command::Put(set_command));
    assert_eq!(set_response, CommandResponse::Success);

    let get_command = GetCommand::new("key1".to_string());
    let get_response = dispatcher.execute(Command::Get(get_command));
    assert_eq!(get_response, CommandResponse::Value(b"value1".to_vec()));

    let exist_command = ExistCommand::new("key1".to_string());
    let exist_response = dispatcher.execute(Command::Exist(exist_command));
    assert_eq!(exist_response, CommandResponse::Bool(true));

    let scan_command = ScanCommand::new("key".to_string());
    let scan_response = dispatcher.execute(Command::Scan(scan_command));
    assert_eq!(scan_response, CommandResponse::Keys(vec!["key1".to_string()]));

    let stats_response = dispatcher.execute(Command::Stats);
    if let CommandResponse::Stats { total_keys, memory_usage, hits, misses, total_operations } =
        stats_response
    {
        assert!(total_keys != 0);
        assert!(total_operations != 0);
        assert_eq!((hits, misses), (1, 0));
        assert!(memory_usage != 0)
    } else {
        panic!("Expected Stats response");
    }

    let delete_command = DeleteCommand::new("key1".to_string());
    let delete_response = dispatcher.execute(Command::Delete(delete_command));
    assert_eq!(delete_response, CommandResponse::Bool(true))
}

#[test]
fn test_batch_commands() {
    let mut dispatcher = CommandDispatcher::new(engine());
    let commands = vec![
        Command::Put(SetCommand::new("key1".to_string(), b"value1".to_vec())),
        Command::Put(SetCommand::new("key2".to_string(), b"value2".to_vec())),
        Command::Get(GetCommand::new("key1".to_string())),
        Command::Exist(ExistCommand::new("key2".to_string())),
        Command::Delete(DeleteCommand::new("key2".to_string())),
    ];
    let responses = dispatcher.execute_batch(commands);
    assert_eq!(responses.len(), 5);
    assert_eq!(responses[0], CommandResponse::Success);
    assert_eq!(responses[1], CommandResponse::Success);
    assert_eq!(responses[2], CommandResponse::Value(b"value1".to_vec()));
    assert_eq!(responses[3], CommandResponse::Bool(true));
    assert_eq!(responses[4], CommandResponse::Bool(true));
}

#[test]
fn batch_keeps_submission_order() {
    let mut dispatcher = CommandDispatcher::new(engine());
    let commands = vec![
        Command::Put(SetCommand::new("k".to_string(), b"v1".to_vec())),
        Command::Get(GetCommand::new("k".to_string())),
        Command::Put(SetCommand::new("k".to_string(), b"v2".to_vec())),
        Command::Get(GetCommand::new("k".to_string())),
    ];
    let responses = dispatcher.execute_batch(commands);
    assert_eq!(
        responses,
        vec![
            CommandResponse::Success,
            CommandResponse::Value(b"v1".to_vec()),
            CommandResponse::Success,
            CommandResponse::Value(b"v2".to_vec()),
        ]
    );
}

#[test]
fn validation_errors_name_their_rule() {
    let long_key = "k".repeat(513);
    assert_eq!(
        GetCommand::new(String::new()).validate(),
        Err(CommandError::InvalidParameter("Key cannot be empty".to_string()))
    );
    assert_eq!(
        DeleteCommand::new(String::new()).validate(),
        Err(CommandError::MissingParameter("Key cannot be empty".to_string()))
    );
    assert_eq!(
        GetCommand::new(long_key.clone()).validate(),
        Err(CommandError::InvalidParameter("Key too long (max 512 bytes)".to_string()))
    );
    assert!(GetCommand::new("k".repeat(512)).validate().is_ok());
    let big = SetCommand::new("k".to_string(), vec![0u8; 10 * 1024 * 1024 + 1]);
    assert_eq!(
        big.validate(),
        Err(CommandError::InvalidParameter("Value too large (max 10MB)".to_string()))
    );
    assert!(SetCommand::new("k".to_string(), vec![0u8; 10 * 1024 * 1024]).validate().is_ok());
    assert_eq!(
        CommandError::InvalidParameter("x".to_string()).message(),
        "Invalid parameter: x"
    );
}

#[test]
fn invalid_command_has_no_side_effect() {
    let mut dispatcher = CommandDispatcher::new(engine());
    let r = dispatcher.execute(Command::Put(SetCommand::new(String::new(), b"v".to_vec())));
    assert_eq!(r, CommandResponse::Error("Invalid parameter: Key cannot be empty".to_string()));
    assert_eq!(dispatcher.storage().stats().unwrap().total_keys, 0);
}

#[test]
fn dispatcher_reports_validation_text_and_refused_sets() {
    let config = StorageConfig { max_memory: 100, ..Default::default() };
    let mut dispatcher = CommandDispatcher::new(MemoryEngine::new(config));
    let r = dispatcher.execute(Command::Delete(DeleteCommand::new(String::new())));
    assert_eq!(r, CommandResponse::Error("Missing required parameter: Key cannot be empty".to_string()));
    let r = dispatcher.execute(Command::Put(SetCommand::new("k".to_string(), vec![0; 50])));
    assert_eq!(r, CommandResponse::Error("Memory limit exceeded: 0 + 115 > 100".to_string()));
    let r = dispatcher.execute_with_middleware::<NoHooks>(Command::Ping, &Vec::new());
    assert_eq!(r, CommandResponse::Pong);
}

struct NoHooks;

impl blazekvdb::commands::CommandMiddleware for NoHooks {
    fn before_execute(&self, _m: &blazekvdb::commands::CommandMetadata) -> Result<(), CommandResponse> {
        Ok(())
    }

    fn after_execute(&self, _m: &blazekvdb::commands::CommandMetadata, _r: &CommandResponse) {}
}

#[test]
fn ttl_is_refused() {
    let mut dispatcher = CommandDispatcher::new(engine());
    let cmd = SetCommand::new("k".to_string(), b"v".to_vec()).with_ttl(10);
    assert_eq!(cmd.ttl, Some(10));
    let r = dispatcher.execute(Command::Put(cmd));
    assert_eq!(r, CommandResponse::Error("TTL not yet supported".to_string()));
    assert_eq!(dispatcher.storage().stats().unwrap().total_keys, 0);
}

#[test]
fn get_of_missing_key_is_an_error() {
    let mut engine = engine();
    let r = Command::Get(GetCommand::new("nope".to_string())).execute(&mut engine);
    assert_eq!(r, CommandResponse::Error("Key not found".to_string()));
}

#[test]
fn metadata_and_complexity() {
    let set = SetCommand::new("k".to_string(), vec![0u8; 1500]);
    assert_eq!(set.complexity(), 2);
    assert_eq!(SetCommand::new("k".to_string(), vec![0u8; 2048]).complexity(), 2);
    assert_eq!(SetCommand::new("k".to_string(), Vec::new()).complexity(), 0);
    let m = Command::Put(set).metadata();
    assert_eq!(m.name, "SET");
    assert!(!m.read_only);
    assert_eq!(m.estimated_complexity, 2);
    let g = Command::Get(GetCommand::new("k".to_string())).metadata();
    assert_eq!((g.name.as_str(), g.read_only, g.estimated_complexity), ("GET", true, 1));
    assert!(!Command::Delete(DeleteCommand::new("k".to_string())).metadata().read_only);
    assert!(Command::Exist(ExistCommand::new("k".to_string())).metadata().read_only);
    assert_eq!(StatsCommand.metadata().name, "STATS");
    assert_eq!(PingCommand.metadata().name, "PING");
    assert!(ScanCommand::new(String::new()).validate().is_ok());
}
