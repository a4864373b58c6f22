use procfinder::process::ProcessRecord;
use procfinder::util::ProcessCompleter;

fn record(pid: i32, name: &str, memory_bytes: u64) -> ProcessRecord {
    ProcessRecord { pid, name: name.to_string(), memory_bytes }
}

fn completer() -> ProcessCompleter {
    ProcessCompleter {
        processes: vec![
            record(100, "sshd", 2048000),
            record(205, "nginx", 4096000),
            record(999, "nginx-worker", 1024000),
        ],
    }
}

#[test]
fn name_prefix_suggests_in_snapshot_order() {
    let c = completer();
    let got = c.complete("ngi");
    assert_eq!(got, vec!["205 - nginx".to_string(), "999 - nginx-worker".to_string()]);
}

#[test]
fn name_prefix_is_case_insensitive() {
    let c = completer();
    let got = c.complete("NGINX");
    assert_eq!(got, vec!["205 - nginx".to_string(), "999 - nginx-worker".to_string()]);
}

#[test]
fn pid_prefix_suggests() {
    let c = completer();
    let got = c.complete("20");
    assert_eq!(got, vec!["205 - nginx".to_string()]);
}

#[test]
fn empty_line_suggests_everything() {
    let c = completer();
    let got = c.complete("");
    assert_eq!(got.len(), 3);
}

#[test]
fn unrelated_line_suggests_nothing() {
    let c = completer();
    let got = c.complete("postgres");
    assert!(got.is_empty());
}

#[test]
fn suggestions_are_labels_of_index_records() {
    let c = completer();
    let labels = vec![
        "100 - sshd".to_string(),
        "205 - nginx".to_string(),
        "999 - nginx-worker".to_string(),
    ];
    for line in ["", "n", "ngin", "9", "ss", "SSH", "2"] {
        for suggestion in c.complete(line) {
            assert!(labels.contains(&suggestion));
        }
    }
}

#[test]
fn fuzzy_matches_are_not_suggested() {
    // The completer matches by prefix alone: a term that only resembles
    // a name suggests nothing.
    let c = completer();
    assert!(c.complete("ginx").is_empty());
    assert!(c.complete("05").is_empty());
}
