use resp_gate::client::{
    READ_WINDOW, command_bytes, credential_command, credential_verdict, reply_value,
    session_read_command, session_read_verdict, session_write_command, session_write_verdict,
    uniqueness_command, uniqueness_verdict,
};
use resp_gate::database::DataBase;
use resp_gate::resp::{RespError, RespValue};

#[test]
fn credential_check_compares_the_stored_secret() {
    assert_eq!(credential_verdict(b"$6\r\nsecret\r\n", "secret"), Ok(true));
    assert_eq!(credential_verdict(b"$5\r\nwrong\r\n", "secret"), Ok(false));
    assert_eq!(credential_verdict(b"$-1\r\n", "secret"), Ok(false));
    assert_eq!(credential_verdict(b"+secret\r\n", "secret"), Ok(false));
    assert_eq!(credential_verdict(b"$6\r\nsecret\r\n", "secre"), Ok(false));
}

#[test]
fn credential_command_names_the_user() {
    let cmd = credential_command("alice");
    assert_eq!(cmd, vec!["HGET".to_string(), "usr-pwd".to_string(), "alice".to_string()]);
    assert_eq!(
        command_bytes(cmd),
        b"*3\r\n$4\r\nHGET\r\n$7\r\nusr-pwd\r\n$5\r\nalice\r\n".to_vec()
    );
}

#[test]
fn key_is_unique_only_on_zero() {
    assert_eq!(uniqueness_command("token42"), vec!["EXISTS".to_string(), "token42".to_string()]);
    assert_eq!(uniqueness_verdict(b":0\r\n"), Ok(true));
    assert_eq!(uniqueness_verdict(b":1\r\n"), Ok(false));
    assert_eq!(uniqueness_verdict(b":-1\r\n"), Ok(false));
    assert_eq!(uniqueness_verdict(b"+0\r\n"), Ok(false));
}

#[test]
fn session_write_needs_a_status_reply() {
    assert_eq!(
        session_write_command("abc", "10.0.0.5", 3600),
        vec![
            "SET".to_string(),
            "Session-abc".to_string(),
            "10.0.0.5".to_string(),
            "EX".to_string(),
            "3600".to_string(),
        ]
    );
    assert_eq!(session_write_command("k", "ip", 0)[4], "0".to_string());
    assert_eq!(session_write_verdict(b"+OK\r\n"), Ok(true));
    assert_eq!(session_write_verdict(b"-ERR\r\n"), Ok(false));
    assert_eq!(session_write_verdict(b"_\r\n"), Ok(false));
}

#[test]
fn session_read_compares_the_bound_address() {
    assert_eq!(
        session_read_command("abc"),
        vec!["GET".to_string(), "Session-abc".to_string()]
    );
    assert_eq!(session_read_verdict(b"$8\r\n10.0.0.5\r\n", "10.0.0.5"), Ok(true));
    assert_eq!(session_read_verdict(b"$8\r\n10.0.0.6\r\n", "10.0.0.5"), Ok(false));
    assert_eq!(session_read_verdict(b"_\r\n", "10.0.0.5"), Ok(false));
}

#[test]
fn oversized_reply_is_an_error() {
    let payload = "x".repeat(200);
    let reply = format!("${}\r\n{}\r\n", payload.len(), payload);
    assert_eq!(reply_value(reply.as_bytes()), Err(RespError::Oversized));
    assert_eq!(credential_verdict(reply.as_bytes(), &payload), Err(RespError::Oversized));
    let window = &reply.as_bytes()[..READ_WINDOW];
    assert_eq!(reply_value(window), Err(RespError::Oversized));
    assert_eq!(credential_verdict(window, &payload), Err(RespError::Oversized));
}

#[test]
fn reply_that_fills_the_window_exactly_is_read() {
    let payload = "y".repeat(READ_WINDOW - 8);
    let reply = format!("${}\r\n{}\r\n", payload.len(), payload);
    assert_eq!(reply.len(), READ_WINDOW);
    assert_eq!(reply_value(reply.as_bytes()), Ok(RespValue::BulkString(Some(payload))));
}

#[test]
fn short_and_malformed_replies_are_errors() {
    assert_eq!(reply_value(b"$5\r\nab"), Err(RespError::Incomplete));
    assert_eq!(uniqueness_verdict(b""), Err(RespError::Incomplete));
    assert_eq!(uniqueness_verdict(b"?\r\n"), Err(RespError::Malformed));
    assert_eq!(session_write_verdict(b":x\r\n"), Err(RespError::Malformed));
}

#[test]
fn database_handle_is_made() {
    let _db = DataBase::new();
}
