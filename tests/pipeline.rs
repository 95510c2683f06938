use rusty_blue::configs::{get_thread_num, read_csv, ConfigError, SingletonReader};
use rusty_blue::detection::{merge_batches, route, Channel, Detection, DetectionError};
use rusty_blue::event::{Event, RawRecord};
use rusty_blue::patterns::{PatternEntry, PatternRegistry};

fn record(i: u64) -> RawRecord {
    RawRecord { record_id: i, data: format!("<Event>{}</Event>", i) }
}

fn event(channel: &str, data: &[(&str, &str)]) -> Event {
    let mut e = Event::new("4688".to_string(), channel.to_string());
    for (k, v) in data {
        e.push_data(k.to_string(), v.to_string());
    }
    e
}

fn config(regexes: &str, whitelist: &str) -> SingletonReader {
    match SingletonReader::build(None, regexes, whitelist) {
        Ok(c) => c,
        Err(_) => panic!("configuration should build"),
    }
}

fn encoded_command() -> String {
    format!("powershell.exe -enc {}", "A".repeat(120))
}

#[test]
fn chunks_cut_in_order_with_short_last_batch() {
    let records: Vec<RawRecord> = (0..250).map(record).collect();
    let batches = Detection::chunks(records, 100).ok().unwrap();
    let lens: Vec<usize> = batches.iter().map(|b| b.len()).collect();
    assert_eq!(lens, vec![100, 100, 50]);
    let ids: Vec<u64> = batches.iter().flatten().map(|r| r.record_id).collect();
    assert_eq!(ids, (0..250).collect::<Vec<u64>>());
}

#[test]
fn chunks_exact_multiple_keeps_full_last_batch() {
    let batches = Detection::chunks((0..200).collect::<Vec<u32>>(), 100).ok().unwrap();
    assert_eq!(batches.len(), 2);
    assert_eq!(batches[1].len(), 100);
    assert_eq!(batches[1][0], 100);
}

#[test]
fn chunks_of_nothing_is_empty() {
    let batches = Detection::chunks(Vec::<u32>::new(), 3).ok().unwrap();
    assert!(batches.is_empty());
}

#[test]
fn chunks_reject_size_below_one() {
    assert!(matches!(Detection::chunks(vec![1, 2, 3], 0), Err(DetectionError::InvalidChunkSize)));
    assert!(matches!(Detection::chunks(vec![1, 2, 3], -4), Err(DetectionError::InvalidChunkSize)));
}

#[test]
fn thread_number_defaults_to_one() {
    assert!(matches!(get_thread_num(None), Ok(1)));
    assert!(matches!(get_thread_num(Some("8")), Ok(8)));
    assert!(matches!(get_thread_num(Some("2147483647")), Ok(2147483647)));
}

#[test]
fn thread_number_rejects_bad_values() {
    for bad in ["0", "", "abc", "-2", "4x", "2147483648", "99999999999999999999"] {
        assert!(matches!(get_thread_num(Some(bad)), Err(ConfigError::InvalidThreadNumber)), "{}", bad);
    }
}

#[test]
fn csv_rows_are_read_and_malformed_rows_skipped() {
    let rows = read_csv("mimikatz,mimi.*katz\nbroken\nnc,nc\\.exe\n");
    assert_eq!(rows, vec![
        vec!["mimikatz".to_string(), "mimi.*katz".to_string()],
        vec!["nc".to_string(), "nc\\.exe".to_string()],
    ]);
    assert!(read_csv("").is_empty());
}

#[test]
fn registry_holds_the_builtin_patterns() {
    let c = config("", "");
    assert_eq!(c.cached_regex.len(), 8);
    assert!(c.cached_regex.contains("\\-enc.*[A-Za-z0-9/+=]{100}"));
    assert!(c.cached_regex.contains("[01]"));
    assert!(c.cached_regex.contains("[a-z0-9/\u{a5};:|.]"));
    assert_eq!(c.thread_num, 1);
}

#[test]
fn whitelist_row_is_keyed_by_its_source() {
    let c = config("", "foo.*bar\n");
    assert!(c.cached_regex.contains("foo.*bar"));
    assert_eq!(c.cached_regex.len(), 9);
    let e = c.cached_regex.get("foo.*bar").unwrap();
    assert_eq!(e.source(), "foo.*bar");
}

#[test]
fn same_source_is_kept_once() {
    let c = config("bits,[01]\nx,foo\n", "[01]\nfoo\n");
    assert_eq!(c.cached_regex.len(), 9);
    let mut reg = PatternRegistry::new();
    reg.insert(PatternEntry::compile("a+").ok().unwrap());
    reg.insert(PatternEntry::compile("a+").ok().unwrap());
    assert_eq!(reg.len(), 1);
    assert!(!reg.contains("a"));
}

#[test]
fn bad_pattern_is_reported() {
    match SingletonReader::build(None, "ok,abc\nbad,foo(\nworse,[\n", "") {
        Err(ConfigError::Pattern(e)) => {
            assert_eq!(e.pattern, "foo(");
            assert!(!e.reason.is_empty());
        },
        _ => panic!("expected a pattern error"),
    }
    assert!(matches!(
        SingletonReader::build(Some("zero"), "", ""),
        Err(ConfigError::InvalidThreadNumber)
    ));
}

#[test]
fn channels_route_exactly() {
    assert_eq!(route("Security"), Some(Channel::Security));
    assert_eq!(route("System"), Some(Channel::System));
    assert_eq!(route("Application"), Some(Channel::Application));
    assert_eq!(route("Microsoft-Windows-PowerShell/Operational"), Some(Channel::PowerShell));
    assert_eq!(route("Microsoft-Windows-Sysmon/Operational"), Some(Channel::Sysmon));
    assert_eq!(route("Microsoft-Windows-AppLocker/EXE and DLL"), Some(Channel::AppLocker));
    assert_eq!(route("security"), None);
    assert_eq!(route("Totally/Unknown"), None);
    assert_eq!(route("Security"), route("Security"));
}

#[test]
fn merge_drops_failed_records() {
    let batches = vec![
        vec![Some(event("System", &[])), None, Some(event("Security", &[]))],
        vec![None],
        vec![Some(event("Application", &[]))],
    ];
    let merged = merge_batches(batches);
    let channels: Vec<&str> = merged.iter().map(|e| e.channel.as_str()).collect();
    assert_eq!(channels, vec!["System", "Security", "Application"]);
}

#[test]
fn merge_size_does_not_depend_on_arrival_order() {
    let a = vec![vec![Some(event("System", &[])), None], vec![Some(event("Security", &[]))]];
    let b = vec![vec![Some(event("Security", &[]))], vec![Some(event("System", &[])), None]];
    assert_eq!(merge_batches(a).len(), merge_batches(b).len());
}

#[test]
fn security_encoded_command_is_found() {
    let c = config("", "");
    let events = vec![event("Security", &[("CommandLine", &encoded_command())])];
    let mut d = Detection::new();
    d.start(&c, &events);
    let sec = &d.specialized[0];
    assert_eq!(sec.observed, 1);
    assert_eq!(sec.findings.len(), 1);
    assert_eq!(sec.findings[0].indicator, "encoded command");
    assert_eq!(sec.findings[0].field, "CommandLine");
    assert_eq!(sec.findings[0].event_id, "4688");
    assert_eq!(d.general.findings.len(), 1);
}

#[test]
fn unknown_channel_reaches_only_the_general_detector() {
    let c = config("", "");
    let events = vec![event("Totally/Unknown", &[("CommandLine", &encoded_command())])];
    let mut d = Detection::new();
    d.start(&c, &events);
    assert_eq!(d.general.observed, 1);
    for s in &d.specialized {
        assert_eq!(s.observed, 0);
        assert!(s.findings.is_empty());
    }
}

#[test]
fn short_value_is_no_finding() {
    let c = config("", "");
    let events = vec![event("System", &[("CommandLine", "powershell.exe -enc AAAA")])];
    let mut d = Detection::new();
    d.start(&c, &events);
    assert_eq!(d.specialized[1].observed, 1);
    assert!(d.specialized[1].findings.is_empty());
}

#[test]
fn whitelisted_value_is_no_finding() {
    let c = config("", "^powershell\\.exe\n");
    let events = vec![event("Security", &[("CommandLine", &encoded_command())])];
    let mut d = Detection::new();
    d.start(&c, &events);
    assert_eq!(d.specialized[0].observed, 1);
    assert!(d.specialized[0].findings.is_empty());
}

#[test]
fn detection_file_names_its_findings() {
    let c = config("mimikatz,mimi.*katz\n", "");
    let events = vec![
        event("Microsoft-Windows-Sysmon/Operational", &[("Image", "C:\\mimikatz.exe")]),
        event("Microsoft-Windows-Sysmon/Operational", &[("Image", "C:\\notepad.exe")]),
    ];
    let mut d = Detection::new();
    d.start(&c, &events);
    let sysmon = &d.specialized[4];
    assert_eq!(sysmon.observed, 2);
    assert_eq!(sysmon.findings.len(), 1);
    assert_eq!(sysmon.findings[0].indicator, "mimikatz");
    assert_eq!(d.general.observed, 2);
}
