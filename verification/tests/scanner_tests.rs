use whereami::scanner::{
    freq_to_channel, iw_trigger_step, networks_from_iw, networks_from_nmcli, nmcli_result_used,
    normalize_bssid, parse_iw_output, parse_nmcli_output, scan_to_sample, sort_by_signal,
    split_nmcli_fields, ScannedNetwork, TriggerStep,
};

#[test]
fn test_parse_iw_output() {
    let output = "BSS aa:bb:cc:dd:ee:ff(on wlan0)
\tfreq: 2437
\tsignal: -65.00 dBm
\tSSID: TestWiFi
\tDS Parameter set: channel 6
BSS 11:22:33:44:55:66(on wlan0)
\tfreq: 5180
\tsignal: -78.00 dBm
\tSSID: eduroam
";
    let networks = parse_iw_output(output);
    assert_eq!(networks.len(), 2);
    assert_eq!(networks[0].bssid, "AA:BB:CC:DD:EE:FF");
    assert_eq!(networks[0].ssid, Some("TestWiFi".to_string()));
    assert_eq!(networks[0].signal_dbm, -65);
    assert_eq!(networks[0].channel, Some(6));
    assert_eq!(networks[0].frequency, Some(2437));

    assert_eq!(networks[1].bssid, "11:22:33:44:55:66");
    assert_eq!(networks[1].signal_dbm, -78);
}

#[test]
fn test_parse_nmcli_output() {
    // nmcli -t escapes colons in BSSIDs as \:
    let output = "AA\\:BB\\:CC\\:DD\\:EE\\:01:TestNet_2G:65:11:2462\nAA\\:BB\\:CC\\:DD\\:EE\\:02:TestNet_5G:49:100:5500\n";
    let networks = parse_nmcli_output(output);
    assert_eq!(networks.len(), 2);
    assert_eq!(networks[0].bssid, "AA:BB:CC:DD:EE:01");
    assert_eq!(networks[0].ssid, Some("TestNet_2G".to_string()));
    assert_eq!(networks[0].channel, Some(11));
    assert_eq!(networks[0].frequency, Some(2462));
    // signal: 65% -> -90 + (65*60/100) = -90 + 39 = -51
    assert_eq!(networks[0].signal_dbm, -51);
    assert_eq!(networks[1].bssid, "AA:BB:CC:DD:EE:02");
    assert_eq!(networks[1].ssid, Some("TestNet_5G".to_string()));
}

#[test]
fn test_split_nmcli_fields() {
    let line = "AA\\:BB\\:CC\\:DD\\:EE\\:FF:MySSID:75:6:2437";
    let fields = split_nmcli_fields(line);
    assert_eq!(fields, vec!["AA:BB:CC:DD:EE:FF", "MySSID", "75", "6", "2437"]);
}

#[test]
fn test_normalize_bssid() {
    assert_eq!(normalize_bssid("aa:bb:cc:dd:ee:ff"), "AA:BB:CC:DD:EE:FF");
}

#[test]
fn test_freq_to_channel() {
    assert_eq!(freq_to_channel(2437), Some(6));
    assert_eq!(freq_to_channel(5180), Some(36));
}

#[test]
fn freq_to_channel_bands() {
    assert_eq!(freq_to_channel(2412), Some(1));
    assert_eq!(freq_to_channel(2472), Some(13));
    assert_eq!(freq_to_channel(2484), Some(14));
    assert_eq!(freq_to_channel(2413), None);
    assert_eq!(freq_to_channel(5885), Some(177));
    assert_eq!(freq_to_channel(5955), Some(1));
    assert_eq!(freq_to_channel(7115), Some(233));
    assert_eq!(freq_to_channel(7120), None);
    assert_eq!(freq_to_channel(0), None);
}

#[test]
fn normalize_bssid_trims_and_is_idempotent() {
    assert_eq!(normalize_bssid("  0a:1b:2c:3d:4e:5f\t"), "0A:1B:2C:3D:4E:5F");
    let once = normalize_bssid("aB:cD:eF:01:23:45");
    assert_eq!(normalize_bssid(&once), once);
}

#[test]
fn split_nmcli_keeps_other_backslashes_and_empty_fields() {
    assert_eq!(split_nmcli_fields(""), vec![""]);
    assert_eq!(split_nmcli_fields("a::b"), vec!["a", "", "b"]);
    assert_eq!(split_nmcli_fields("a\\b:c"), vec!["a\\b", "c"]);
    assert_eq!(split_nmcli_fields("end\\"), vec!["end\\"]);
    // Round trip of fields holding ':' (escaped on the wire).
    assert_eq!(split_nmcli_fields("x\\:y:z"), vec!["x:y", "z"]);
}

#[test]
fn split_nmcli_backslash_before_escaped_colon() {
    // The first backslash is kept; the second follows it and escapes nothing.
    assert_eq!(split_nmcli_fields("\\\\:"), vec!["\\\\", ""]);
}

#[test]
fn nmcli_rows_with_bad_signal_or_few_fields_are_skipped() {
    let output = "AA\\:BB\\:CC\\:DD\\:EE\\:01:Net:xx:1:2412\n\nshort:line\r\n  AA\\:BB\\:CC\\:DD\\:EE\\:03::100:x:y  \n";
    let networks = parse_nmcli_output(output);
    assert_eq!(networks.len(), 1);
    assert_eq!(networks[0].bssid, "AA:BB:CC:DD:EE:03");
    assert_eq!(networks[0].ssid, None);
    assert_eq!(networks[0].signal_dbm, -30);
    assert_eq!(networks[0].channel, None);
    assert_eq!(networks[0].frequency, None);
}

#[test]
fn nmcli_signal_conversion_truncates_toward_zero() {
    let networks = parse_nmcli_output("A:B:1:1:1\nA:B:0:1:1\nA:B:-1:1:1\nA:B:+7:1:1\n");
    let sigs: Vec<i32> = networks.iter().map(|n| n.signal_dbm).collect();
    assert_eq!(sigs, vec![-90, -90, -90, -86]);
}

#[test]
fn iw_channel_derived_from_frequency_and_blocks_without_signal_dropped() {
    let output = "BSS 00:11:22:33:44:55(on wlan0) -- associated
\tfreq: 2462
\tsignal: -40.90 dBm
BSS de:ad:be:ef:00:01(on wlan0)
\tSSID: nosignal
BSS 66:77:88:99:aa:bb(on wlan0)
\tDS Parameter set: channel 3
\tfreq: 5200
\tsignal: -51 dBm
\tSSID:
";
    let networks = parse_iw_output(output);
    assert_eq!(networks.len(), 2);
    assert_eq!(networks[0].bssid, "00:11:22:33:44:55");
    assert_eq!(networks[0].channel, Some(11));
    assert_eq!(networks[0].signal_dbm, -40);
    assert_eq!(networks[1].bssid, "66:77:88:99:AA:BB");
    assert_eq!(networks[1].channel, Some(3));
    assert_eq!(networks[1].frequency, Some(5200));
    assert_eq!(networks[1].ssid, None);
}

fn net(b: &str, s: i32) -> ScannedNetwork {
    ScannedNetwork { bssid: b.to_string(), ssid: None, signal_dbm: s, channel: None, frequency: None }
}

#[test]
fn sort_by_signal_is_stable_strongest_first() {
    let v = vec![net("a", -70), net("b", -50), net("c", -70), net("d", -30)];
    let sorted = sort_by_signal(v);
    let order: Vec<&str> = sorted.iter().map(|n| n.bssid.as_str()).collect();
    assert_eq!(order, vec!["d", "b", "a", "c"]);
}

#[test]
fn scan_to_sample_keeps_last_entry_of_repeated_bssid() {
    let v = vec![net("A", -70), net("B", -60), net("A", -40)];
    let sample = scan_to_sample(&v);
    assert_eq!(sample.len(), 2);
    assert_eq!(sample.get("A").unwrap().signal_dbm, -40);
    assert_eq!(sample.entries()[0].0, "A");
    assert_eq!(sample.entries()[1].0, "B");
}

#[test]
fn tool_outputs_decode_and_sort() {
    let nm = networks_from_nmcli(b"A:x:10:1:2412\nB:y:90:1:2412\n");
    assert_eq!(nm[0].bssid, "B");
    let iw = networks_from_iw(b"BSS 00:00:00:00:00:0a\n signal: -80\nBSS 00:00:00:00:00:0b\n signal: -20\n");
    assert_eq!(iw[0].bssid, "00:00:00:00:00:0B");
    assert_eq!(iw[1].bssid, "00:00:00:00:00:0A");
}

#[test]
fn iw_trigger_decisions() {
    assert_eq!(iw_trigger_step(true, "", 3), TriggerStep::Dump);
    assert_eq!(iw_trigger_step(false, "command failed: Device or resource busy (-16)", 3), TriggerStep::Retry);
    assert_eq!(iw_trigger_step(false, "command failed: Device or resource busy (-16)", 0), TriggerStep::DumpAfterWarning);
    assert_eq!(iw_trigger_step(false, "command failed: Network is down (-100)", 3), TriggerStep::InterfaceDown);
    assert_eq!(iw_trigger_step(false, "something else", 3), TriggerStep::DumpAfterWarning);
    assert!(nmcli_result_used(true, 2));
    assert!(!nmcli_result_used(true, 0));
    assert!(!nmcli_result_used(false, 5));
}

#[test]
fn iw_bssids_are_six_hex_octets() {
    let out = "BSS aa:bb:cc:dd:ee:0f(on wlan0)\n\tsignal: -55.00 dBm\nBSS 01:23:45:67:89:ab\n\tsignal: -70.00 dBm\n";
    let nets = parse_iw_output(out);
    assert_eq!(nets.len(), 2);
    for n in &nets {
        let parts: Vec<&str> = n.bssid.split(':').collect();
        assert_eq!(parts.len(), 6);
        for p in parts {
            assert!(p.len() == 2 && p.chars().all(|c| c.is_ascii_hexdigit()));
        }
    }
    assert_eq!(nets[0].bssid, "AA:BB:CC:DD:EE:0F");
    assert_eq!(nets[1].bssid, "01:23:45:67:89:AB");
}

#[test]
fn nmcli_fields_leave_no_escape() {
    let fields = split_nmcli_fields("AA\\:BB\\:CC:my\\:net:80");
    assert_eq!(fields, vec!["AA:BB:CC".to_string(), "my:net".to_string(), "80".to_string()]);
    assert!(fields.iter().all(|f| !f.contains("\\:")));
    // A backslash right after a kept backslash escapes nothing: the colon cuts.
    assert_eq!(split_nmcli_fields("a\\\\:b"), vec!["a\\\\".to_string(), "b".to_string()]);
    assert_eq!(split_nmcli_fields("\\\\:"), vec!["\\\\".to_string(), "".to_string()]);
    assert!(split_nmcli_fields("x\\\\\\:y").iter().all(|f| !f.contains("\\:")));
}

#[test]
fn invalid_utf8_in_ssid_is_replaced() {
    let nm = networks_from_nmcli(b"aa\\:bb\\:cc\\:dd\\:ee\\:ff:caf\xff:80:6:2437\n");
    assert_eq!(nm.len(), 1);
    assert_eq!(nm[0].bssid, "AA:BB:CC:DD:EE:FF");
    assert_eq!(nm[0].ssid.as_deref(), Some("caf\u{FFFD}"));
}

#[test]
fn iw_malformed_bss_line_starts_no_network() {
    let nets = parse_iw_output("BSS foo\n\tsignal: -50.00 dBm\nBSS aa:bb:cc:dd:ee:ff(on wlan0)\n\tsignal: -60.00 dBm\n");
    assert_eq!(nets.len(), 1);
    assert_eq!(nets[0].bssid, "AA:BB:CC:DD:EE:FF");
    assert_eq!(nets[0].signal_dbm, -60);
}

fn iw_signal(reading: &str) -> Option<i32> {
    let text = format!("BSS aa:bb:cc:dd:ee:ff(on wlan0)\n\tsignal: {} dBm\n", reading);
    let nets = parse_iw_output(&text);
    nets.first().map(|n| n.signal_dbm)
}

#[test]
fn iw_signal_reads_float_notation() {
    assert_eq!(iw_signal("-65.00"), Some(-65));
    assert_eq!(iw_signal("-6.5e1"), Some(-65));
    assert_eq!(iw_signal("-650E-1"), Some(-65));
    assert_eq!(iw_signal("+.5e2"), Some(50));
    assert_eq!(iw_signal("-71."), Some(-71));
    assert_eq!(iw_signal("-0.9"), Some(0));
    assert_eq!(iw_signal("1e-5"), Some(0));
    assert_eq!(iw_signal("0e999999999999999999999999999"), Some(0));
}

#[test]
fn iw_signal_saturates_and_maps_nan_to_zero() {
    assert_eq!(iw_signal("inf"), Some(i32::MAX));
    assert_eq!(iw_signal("-Infinity"), Some(i32::MIN));
    assert_eq!(iw_signal("NaN"), Some(0));
    assert_eq!(iw_signal("-nan"), Some(0));
    assert_eq!(iw_signal("5e10"), Some(i32::MAX));
    assert_eq!(iw_signal("-1e999999999999999999999999"), Some(i32::MIN));
    assert_eq!(iw_signal("-99999999999999999999999"), Some(i32::MIN));
}

#[test]
fn iw_signal_rejects_what_a_float_parse_rejects() {
    assert_eq!(iw_signal("e5"), None);
    assert_eq!(iw_signal("."), None);
    assert_eq!(iw_signal("1e"), None);
    assert_eq!(iw_signal("1e+"), None);
    assert_eq!(iw_signal("infin"), None);
    assert_eq!(iw_signal("-65dBm"), None);
    assert_eq!(iw_signal("--65"), None);
}
