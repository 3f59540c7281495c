use blazekvdb::commands::delete::DeleteCommand;
use blazekvdb::commands::exist::ExistCommand;
use blazekvdb::commands::get::GetCommand;
use blazekvdb::commands::scan::ScanCommand;
use blazekvdb::commands::set::SetCommand;
use blazekvdb::commands::{Command, CommandResponse};
use blazekvdb::protocol::parser::{ProtocolError, ProtocolParser};

#[test]
fn test_parse_get_command() {
    let cmd = ProtocolParser::parse_command("GET mykey").unwrap();
    assert_eq!(cmd, Command::Get(GetCommand::new("mykey".to_string())))
}

#[test]
fn test_parse_set_command_plain_text() {
    let cmd = ProtocolParser::parse_command("SET mykey hello world").unwrap();
    assert_eq!(
        cmd,
        Command::Put(SetCommand::new("mykey".to_string(), b"hello world".to_vec()))
    )
}

#[test]
fn test_parse_set_command_base64() {
    let cmd = ProtocolParser::parse_command("SET mykey aGVsbG8=").unwrap();
    assert_eq!(cmd, Command::Put(SetCommand::new("mykey".to_string(), b"hello".to_vec())))
}

#[test]
fn test_parse_delete_command() {
    let cmd = ProtocolParser::parse_command("DELETE mykey").unwrap();
    assert_eq!(cmd, Command::Delete(DeleteCommand::new("mykey".to_string())));
    let cmd = ProtocolParser::parse_command("DEL mykey").unwrap();
    assert_eq!(cmd, Command::Delete(DeleteCommand::new("mykey".to_string())));
}

#[test]
fn test_parse_exist_command() {
    let cmd = ProtocolParser::parse_command("EXIST mykey").unwrap();
    assert_eq!(cmd, Command::Exist(ExistCommand::new("mykey".to_string())));
}

#[test]
fn test_parse_scan_command() {
    let cmd = ProtocolParser::parse_command("SCAN user:").unwrap();
    assert_eq!(cmd, Command::Scan(ScanCommand::new("user:".to_string())));
    let cmd = ProtocolParser::parse_command("SCAN").unwrap();
    assert_eq!(cmd, Command::Scan(ScanCommand::new(String::new())))
}

#[test]
fn test_parse_simple_commands() {
    assert_eq!(ProtocolParser::parse_command("PING").unwrap(), Command::Ping);
    assert_eq!(ProtocolParser::parse_command("STATS").unwrap(), Command::Stats);
}

#[test]
fn test_parse_errors() {
    assert!(ProtocolParser::parse_command("GET").is_err());
    assert!(ProtocolParser::parse_command("SET key").is_err());
    assert!(ProtocolParser::parse_command("DELETE").is_err());
    assert!(ProtocolParser::parse_command("UNKNOWN").is_err());
    assert!(ProtocolParser::parse_command("").is_err());
}

#[test]
fn test_serialize_responses() {
    let response = CommandResponse::Value(b"hello".to_vec());
    let serialized = ProtocolParser::serialize_response(&response).unwrap();
    assert_eq!(serialized, "VALUE aGVsbG8=\n");

    let response = CommandResponse::Success;
    let serialized = ProtocolParser::serialize_response(&response).unwrap();
    assert_eq!(serialized, "OK\n");

    let response = CommandResponse::Bool(true);
    let serialized = ProtocolParser::serialize_response(&response).unwrap();
    assert_eq!(serialized, "TRUE\n");

    let response = CommandResponse::Bool(false);
    let serialized = ProtocolParser::serialize_response(&response).unwrap();
    assert_eq!(serialized, "FALSE\n");

    let response = CommandResponse::Keys(vec!["key1".to_string(), "key2".to_string()]);
    let serialized = ProtocolParser::serialize_response(&response).unwrap();
    assert_eq!(serialized, "KEYS 2\nkey1\nkey2\n");

    let response = CommandResponse::Error("Something went wrong".to_string());
    let serialized = ProtocolParser::serialize_response(&response).unwrap();
    assert_eq!(serialized, "ERROR Something went wrong\n");

    let response = CommandResponse::Pong;
    let serialized = ProtocolParser::serialize_response(&response).unwrap();
    assert_eq!(serialized, "PONG\n");
}

#[test]
fn test_parse_multiple_commands() {
    let buffer = "GET key1\nSET key2 value2\nPING\n";
    let commands = ProtocolParser::parse_commands(buffer);
    assert_eq!(commands.len(), 3);
    assert_eq!(commands[0].as_ref().unwrap(), &Command::Get(GetCommand::new("key1".to_string())));
    assert_eq!(
        commands[1].as_ref().unwrap(),
        &Command::Put(SetCommand::new("key2".to_string(), b"value2".to_vec()))
    );
    assert_eq!(commands[2].as_ref().unwrap(), &Command::Ping);
}

#[test]
fn parse_is_case_insensitive_and_reports_unknown_names() {
    assert_eq!(
        ProtocolParser::parse_command("get mykey").unwrap(),
        Command::Get(GetCommand::new("mykey".to_string()))
    );
    assert_eq!(
        ProtocolParser::parse_command("bogus x"),
        Err(ProtocolError::UnknownCommand("BOGUS".to_string()))
    );
    assert_eq!(
        ProtocolParser::parse_command("bogus").unwrap_err().message(),
        "Unknown command: BOGUS"
    );
    assert!(matches!(ProtocolParser::parse_command("   "), Err(ProtocolError::InvalidFormat(_))));
    assert!(matches!(ProtocolParser::parse_command("GET"), Err(ProtocolError::MissingArguments(_))));
}

#[test]
fn parse_set_value_rules() {
    // A single word that is not base64 is taken as its own bytes.
    assert_eq!(
        ProtocolParser::parse_command("SET k bar").unwrap(),
        Command::Put(SetCommand::new("k".to_string(), b"bar".to_vec()))
    );
    // Several words are joined with single spaces, whatever separated them.
    assert_eq!(
        ProtocolParser::parse_command("  SET k  a\tb   c ").unwrap(),
        Command::Put(SetCommand::new("k".to_string(), b"a b c".to_vec()))
    );
    assert_eq!(
        ProtocolParser::parse_command("SET k Mg==").unwrap(),
        Command::Put(SetCommand::new("k".to_string(), b"2".to_vec()))
    );
}

#[test]
fn parse_commands_skips_blank_lines() {
    let commands = ProtocolParser::parse_commands("\n  \nPING\r\n\nBOGUS\nSTATS");
    assert_eq!(commands.len(), 3);
    assert_eq!(commands[0], Ok(Command::Ping));
    assert!(commands[1].is_err());
    assert_eq!(commands[2], Ok(Command::Stats));
}

#[test]
fn serialize_keys_and_stats() {
    assert_eq!(
        ProtocolParser::serialize_response(&CommandResponse::Keys(Vec::new())).unwrap(),
        "KEYS 0\n"
    );
    let stats = CommandResponse::Stats {
        total_keys: 10,
        memory_usage: 1234,
        hits: 5,
        misses: 5,
        total_operations: 20,
    };
    assert_eq!(
        ProtocolParser::serialize_response(&stats).unwrap(),
        "STATS total_keys=10 memory_usage=1234 hit_rate=0.500 total_operations:20\n"
    );
    let fresh = CommandResponse::Stats { total_keys: 0, memory_usage: 0, hits: 0, misses: 0, total_operations: 0 };
    assert_eq!(
        ProtocolParser::serialize_response(&fresh).unwrap(),
        "STATS total_keys=0 memory_usage=0 hit_rate=0.000 total_operations:0\n"
    );
    let all = CommandResponse::Stats { total_keys: 1, memory_usage: 1, hits: 3, misses: 0, total_operations: 3 };
    assert!(ProtocolParser::serialize_response(&all).unwrap().contains("hit_rate=1.000"));
    let third = CommandResponse::Stats { total_keys: 1, memory_usage: 1, hits: 1, misses: 2, total_operations: 3 };
    assert!(ProtocolParser::serialize_response(&third).unwrap().contains("hit_rate=0.333"));
    let two_thirds = CommandResponse::Stats { total_keys: 1, memory_usage: 1, hits: 2, misses: 1, total_operations: 3 };
    assert!(ProtocolParser::serialize_response(&two_thirds).unwrap().contains("hit_rate=0.667"));
}

#[test]
fn serialize_values_in_base64() {
    assert_eq!(
        ProtocolParser::serialize_response(&CommandResponse::Value(b"bar".to_vec())).unwrap(),
        "VALUE YmFy\n"
    );
    assert_eq!(
        ProtocolParser::serialize_response(&CommandResponse::Value(Vec::new())).unwrap(),
        "VALUE \n"
    );
}
