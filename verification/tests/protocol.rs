//! Conversations with a news server. The server is played by a function.
use nobz::error::{to_hex, CoreError};
use nobz::nntp::{
    after_password, after_user, body_command, body_status, check_greeting, login,
    password_command, response_line, stat_command, stat_status, strip_line_end, user_command, AuthStep,
    BodyReply, DotBody, ResponseCode, ServerConfig, StatResult,
};

/// What the server sends back for a command.
fn reply(cmd: &str) -> Vec<&'static [u8]> {
    if cmd.starts_with("AUTHINFO USER") {
        vec![b"381 send password\r\n"]
    } else if cmd.starts_with("AUTHINFO PASS") {
        vec![b"281 auth accepted\r\n"]
    } else if cmd.contains("missing@x") {
        vec![b"430 no such article\r\n"]
    } else if cmd.starts_with("STAT") {
        vec![b"223 0 <exists@x>\r\n"]
    } else if cmd.contains("dotted@x") {
        vec![b"222 body follows\r\n", b"=ybegin size=3 name=t\r\n", b"..xyz\r\n", b".\r\n"]
    } else if cmd.starts_with("BODY") {
        vec![b"222 body follows\r\n", b"hello-body\r\n", b".\r\n"]
    } else {
        vec![b"500 unknown\r\n"]
    }
}

fn line(cmd: &str) -> String {
    response_line(reply(cmd)[0]).unwrap()
}

/// Opens a conversation.
fn connect(cfg: &ServerConfig) {
    check_greeting(&response_line(b"200 nobz-fake ready\r\n").unwrap()).unwrap();
    if let Some((user, password)) = login(cfg) {
        match after_user(&line(&user_command(user))).unwrap() {
            AuthStep::Done => {}
            AuthStep::SendPassword => {
                after_password(&line(&password_command(password))).unwrap();
            }
        }
    }
}

fn stat(id: &str) -> StatResult {
    stat_status(&line(&stat_command(id))).unwrap()
}

fn body(id: &str) -> Result<Vec<u8>, StatResult> {
    let cmd = body_command(id);
    match body_status(&line(&cmd)).unwrap() {
        BodyReply::Missing => Err(StatResult::Missing),
        BodyReply::Follows => {
            let mut b = DotBody::new();
            for l in &reply(&cmd)[1..] {
                if b.feed(l).unwrap() {
                    return Ok(b.finish().bytes);
                }
            }
            panic!("no end of the article")
        }
    }
}

#[test]
fn connects_and_stats() {
    connect(&ServerConfig::localhost());
    assert!(matches!(stat("exists@x"), StatResult::Present));
    assert!(matches!(stat("missing@x"), StatResult::Missing));
}

#[test]
fn authinfo_flow() {
    let mut cfg = ServerConfig::localhost();
    cfg.user = Some("u".into());
    cfg.password = Some("p".into());
    assert!(login(&cfg).is_some());
    connect(&cfg);
    assert!(matches!(stat("exists@x"), StatResult::Present));
}

#[test]
fn body_fetches_and_unstuffs() {
    connect(&ServerConfig::localhost());
    let bytes = body("dotted@x").unwrap();
    let s = String::from_utf8_lossy(&bytes);
    assert!(s.contains(".xyz"), "dot-unstuffing should produce .xyz, got: {s}");
    assert!(!s.contains("..xyz"));
}

#[test]
fn body_returns_missing_on_430() {
    connect(&ServerConfig::localhost());
    assert!(matches!(body("missing@x"), Err(StatResult::Missing)));
}

#[test]
fn commands() {
    assert_eq!(body_command("a@x"), "BODY <a@x>");
    assert_eq!(stat_command("a@x"), "STAT <a@x>");
    assert_eq!(user_command("u"), "AUTHINFO USER u");
    assert_eq!(password_command("p"), "AUTHINFO PASS p");
}

#[test]
fn response_codes() {
    assert_eq!(ResponseCode::parse("200 ok"), Some(ResponseCode(200)));
    assert_eq!(ResponseCode::parse("20"), None);
    assert_eq!(ResponseCode::parse("+12 x"), None);
    assert_eq!(ResponseCode::parse("-12 x"), None);
    assert_eq!(ResponseCode::parse("abc def"), None);
    assert_eq!(ResponseCode(430).class(), 4);
    assert_eq!(ResponseCode(281).class(), 2);
}

#[test]
fn refusals() {
    assert!(check_greeting("201 read only").is_ok());
    assert!(matches!(check_greeting("502 busy"), Err(CoreError::NntpConnect(_))));
    assert!(matches!(after_password("481 wrong"), Err(CoreError::NtpAuthFailed)));
    assert_eq!(after_user("281 ok").unwrap(), AuthStep::Done);
    assert!(after_user("500 what").is_err());
    assert_eq!(body_status("423 no article").unwrap(), BodyReply::Missing);
    assert!(matches!(body_status("500 what"), Err(CoreError::Nntp(_))));
    assert!(matches!(stat_status("500 what"), Err(CoreError::Nntp(_))));
}

#[test]
fn localhost_is_plain() {
    let cfg = ServerConfig::localhost();
    assert_eq!((cfg.host.as_str(), cfg.port, cfg.tls), ("127.0.0.1", 119, false));
    assert!(login(&cfg).is_none());
    let mut cfg = ServerConfig::localhost();
    cfg.user = Some(String::new());
    cfg.password = Some("p".into());
    assert!(login(&cfg).is_none());
}

#[test]
fn lines_and_bodies() {
    assert_eq!(strip_line_end(b"abc\r\n"), b"abc");
    assert_eq!(strip_line_end(b"abc\n"), b"abc");
    assert_eq!(strip_line_end(b"abc"), b"abc");
    assert_eq!(response_line(b"200 \xff\r\n").unwrap(), "200 \u{fffd}");
    assert!(response_line(b"").is_err());
    let mut b = DotBody::new();
    assert!(!b.feed(b"..\r\n").unwrap());
    assert!(!b.feed(b"x.y\r\n").unwrap());
    assert!(b.feed(b".\r\n").unwrap());
    assert_eq!(b.finish().bytes, b".\r\nx.y\r\n");
    assert!(DotBody::new().feed(b"").is_err());
}

#[test]
fn error_messages() {
    assert_eq!(CoreError::Nntp("x".into()).message(), "NNTP protocol error: x");
    assert_eq!(CoreError::NntpConnect("x".into()).message(), "NNTP connection failed: x");
    assert_eq!(CoreError::NtpAuthFailed.message(), "NNTP authentication failed");
    assert_eq!(CoreError::Yenc("x".into()).message(), "yEnc decode error: x");
    assert_eq!(
        CoreError::YencCrc { expected: 0xdeadbeef, actual: 0x1f }.message(),
        "yEnc CRC mismatch: expected 0xdeadbeef, got 0x0000001f"
    );
    assert_eq!(CoreError::NzbParse("x".into()).message(), "NZB parse error: x");
    assert_eq!(CoreError::Other("x".into()).message(), "other: x");
    assert_eq!(to_hex(255), "0x000000ff");
}
