use lol_stats::discovery::{
    client_auth_from_captures, command_line_from_reads, needs_peb_read, discovery_result, is_ux_process, parse_u16, parse_ux_command_line, primary_client,
};
use lol_stats::error::AppError;
use lol_stats::models::ClientAuth;

fn some(s: &str) -> Option<String> {
    Some(s.to_string())
}

fn auth(port: u16) -> ClientAuth {
    ClientAuth {
        port,
        pid: 1,
        auth_token: "t".to_string(),
        region: String::new(),
        rso_platform_id: String::new(),
        riot_client_port: None,
        riot_client_auth_token: None,
        source: "process-command-line".to_string(),
    }
}

#[test]
fn parses_a_full_command_line() {
    let line = "\"C:/Riot Games/League of Legends/LeagueClientUx.exe\" --riotclient-auth-token=RiOt_tok-9 \
                --riotclient-app-port=53012 --app-port=61234 --remoting-auth-token=Ab_c-123 --app-pid=4242 \
                --region=TENCENT --rso_platform_id=HN1 --locale=zh_CN";
    let a = parse_ux_command_line(line, 7).unwrap();
    assert_eq!(a.port, 61234);
    assert_eq!(a.auth_token, "Ab_c-123");
    assert_eq!(a.pid, 4242);
    assert_eq!(a.region, "TENCENT");
    assert_eq!(a.rso_platform_id, "HN1");
    assert_eq!(a.riot_client_port, Some(53012));
    assert_eq!(a.riot_client_auth_token, Some("RiOt_tok-9".to_string()));
    assert_eq!(a.source, "process-command-line");
}

#[test]
fn parses_a_sparse_command_line() {
    let a = parse_ux_command_line("--app-port=2999 --remoting-auth-token=xyz", 55).unwrap();
    assert_eq!(a.port, 2999);
    assert_eq!(a.pid, 55);
    assert_eq!(a.region, "");
    assert_eq!(a.riot_client_port, None);
    assert_eq!(a.riot_client_auth_token, None);
    assert!(parse_ux_command_line("--remoting-auth-token=xyz", 1).is_none());
    assert!(parse_ux_command_line("--app-port=2999", 1).is_none());
    assert!(parse_ux_command_line("--app-port=70000 --remoting-auth-token=xyz", 1).is_none());
}

#[test]
fn captures_combine() {
    let a = client_auth_from_captures(some("80"), some("tok"), some("x"), None, some("HN1"), some("99999"), None, 3)
        .unwrap();
    assert_eq!(a.port, 80);
    assert_eq!(a.pid, 3);
    assert_eq!(a.rso_platform_id, "HN1");
    assert_eq!(a.riot_client_port, None);
    assert!(client_auth_from_captures(some("80"), None, None, None, None, None, None, 3).is_none());
    assert!(client_auth_from_captures(some("abc"), some("t"), None, None, None, None, None, 3).is_none());
    assert!(client_auth_from_captures(None, some("t"), None, None, None, None, None, 3).is_none());
}

#[test]
fn numbers_and_names() {
    assert_eq!(parse_u16("65535"), Some(65535));
    assert_eq!(parse_u16("65536"), None);
    assert_eq!(parse_u16(""), None);
    assert!(is_ux_process("leagueclientux.EXE"));
    assert!(!is_ux_process("LeagueClient.exe"));
}

#[test]
fn scan_outcomes() {
    assert!(matches!(discovery_result(vec![], false), Err(AppError::ClientNotFound)));
    assert!(matches!(discovery_result(vec![], true), Err(AppError::ClientAuthNotFound)));
    let found = discovery_result(vec![auth(1), auth(2)], true).unwrap();
    assert_eq!(found.len(), 2);
    assert_eq!(primary_client(Ok(vec![auth(5), auth(6)])).unwrap().port, 5);
    assert!(matches!(primary_client(Ok(vec![])), Err(AppError::ClientAuthNotFound)));
    assert!(matches!(primary_client(Err(AppError::ClientNotFound)), Err(AppError::ClientNotFound)));
}

#[test]
fn command_line_reads() {
    let ok = |s: &str| -> Result<String, AppError> { Ok(s.to_string()) };
    let err = |s: &str| -> Result<String, AppError> { Err(AppError::Windows(s.to_string())) };
    assert!(!needs_peb_read(&ok("x --app-port=1")));
    assert!(needs_peb_read(&ok("  ")));
    assert!(needs_peb_read(&err("denied")));
    assert_eq!(command_line_from_reads(ok("line"), ok("other")).unwrap(), "line");
    assert_eq!(command_line_from_reads(ok(" "), ok("other")).unwrap(), "other");
    assert!(matches!(command_line_from_reads(ok(" "), err("b")), Err(AppError::Windows(m)) if m == "b"));
    assert_eq!(command_line_from_reads(err("a"), ok("peb")).unwrap(), "peb");
    assert!(matches!(
        command_line_from_reads(err("a"), err("b")),
        Err(AppError::Windows(m)) if m == "Windows API 调用失败：a; PEB 兜底失败：Windows API 调用失败：b"
    ));
}
