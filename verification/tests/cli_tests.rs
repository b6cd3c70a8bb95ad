use whereami::cli::{age_text, cli_command, command_position, dispatch_mode, history_args, CliCommand, Dispatch};
use whereami::client::{DaemonResponse, StatsResponse, WhereAmIClient};
use whereami::nominatim::address_from_reply;

fn strings(v: &[&str]) -> Vec<String> {
    v.iter().map(|s| s.to_string()).collect()
}

#[test]
fn command_aliases() {
    assert_eq!(cli_command(None), CliCommand::Locate);
    assert_eq!(cli_command(Some("l")), CliCommand::Locate);
    assert_eq!(cli_command(Some("s")), CliCommand::Scan);
    assert_eq!(cli_command(Some("st")), CliCommand::Stats);
    assert_eq!(cli_command(Some("d")), CliCommand::Debug);
    assert_eq!(cli_command(Some("h")), CliCommand::History);
    assert_eq!(cli_command(Some("-V")), CliCommand::Version);
    assert_eq!(cli_command(Some("--help")), CliCommand::Help);
    assert_eq!(cli_command(Some("bogus")), CliCommand::Unknown);
}

#[test]
fn stale_age_rendering() {
    assert_eq!(age_text(0), "0s");
    assert_eq!(age_text(59), "59s");
    assert_eq!(age_text(60), "1m");
    assert_eq!(age_text(3599), "59m");
    assert_eq!(age_text(3600), "1h");
    assert_eq!(age_text(7300), "2h");
}

#[test]
fn history_argument_reading() {
    assert_eq!(history_args(&[]).unwrap(), (Some("7d".to_string()), None, None));
    assert_eq!(history_args(&strings(&["24h", "--json"])).unwrap(), (Some("24h".to_string()), None, None));
    assert_eq!(
        history_args(&strings(&["--from", "a", "--to", "b"])).unwrap(),
        (None, Some("a".to_string()), Some("b".to_string()))
    );
    assert_eq!(history_args(&strings(&["--from"])).unwrap_err(), "--from requires an RFC3339 timestamp");
    assert_eq!(history_args(&strings(&["--to"])).unwrap_err(), "--to requires an RFC3339 timestamp");
    assert_eq!(history_args(&strings(&["1d", "2d"])).unwrap_err(), "unknown history arg: 2d");
    assert_eq!(history_args(&strings(&["--weird"])).unwrap_err(), "unknown history arg: --weird");
}

#[test]
fn dispatch_and_client_basics() {
    assert_eq!(dispatch_mode(true, false), Dispatch::PrintJson);
    assert_eq!(dispatch_mode(false, false), Dispatch::Fail);
    assert_eq!(dispatch_mode(false, true), Dispatch::Render);
    assert_eq!(WhereAmIClient::default_addr().addr(), "127.0.0.1:4747");
    assert_eq!(WhereAmIClient::new("10.0.0.5:4747").addr(), "10.0.0.5:4747");
    let s = StatsResponse {
        ok: false,
        v: 1,
        cached_aps: 0,
        pending_aps: 0,
        not_found_aps: 0,
        db_size_bytes: 0,
        api_calls_today: 0,
        inflight: 0,
        db_write_failures: 0,
        error: Some("boom".to_string()),
    };
    assert!(!s.is_ok());
    assert_eq!(s.error(), Some("boom"));
}

#[test]
fn nominatim_requires_a_display_name() {
    let a = address_from_reply(Some("Magstræde 5".to_string()), Some("Magstræde".to_string()), None, None, None, None).unwrap();
    assert_eq!(a.display, "Magstræde 5");
    assert_eq!(a.road.as_deref(), Some("Magstræde"));
    assert!(address_from_reply(Some(String::new()), None, None, None, None, None).is_err());
    assert!(address_from_reply(None, None, None, None, None, None).is_err());
}

#[test]
fn global_flags_may_precede_the_command() {
    assert_eq!(command_position(&strings(&["whereami", "--json", "locate"])), 2);
    assert_eq!(command_position(&strings(&["whereami", "--scan-time=no", "--json", "scan"])), 3);
    assert_eq!(command_position(&strings(&["whereami", "history", "--json", "7d"])), 1);
    assert_eq!(command_position(&strings(&["whereami", "--json"])), 2);
    assert_eq!(command_position(&strings(&["whereami"])), 1);
    assert_eq!(command_position(&[]), 0);
    assert_eq!(command_position(&strings(&["whereami", "--bogus"])), 1);
}
