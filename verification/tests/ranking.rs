use procfinder::matching::{get_best_matches, score_record, sort_by_cpu_time, sort_by_memory, sort_by_score};
use procfinder::process::{cpu_time_value, ProcessRecord, ScoredCandidate, SortDirective, SCORE_SCALE};
use procfinder::query::parse_query;

fn record(pid: i32, name: &str, memory_bytes: u64) -> ProcessRecord {
    ProcessRecord { pid, name: name.to_string(), memory_bytes }
}

fn sample_index() -> Vec<ProcessRecord> {
    vec![
        record(100, "sshd", 2048000),
        record(205, "nginx", 4096000),
        record(999, "nginx-worker", 1024000),
    ]
}

/// The similarities the interactive tool computes: Jaro-Winkler over
/// the lowercased term against the lowercased name and display label,
/// scaled to millionths.
fn sims_for(term: &str, processes: &[ProcessRecord]) -> Vec<(u32, u32)> {
    let term_lower = term.to_lowercase();
    processes
        .iter()
        .map(|rec| {
            let name_sim = strsim::jaro_winkler(&term_lower, &rec.name.to_lowercase());
            let label = format!("{} - {}", rec.pid, rec.name).to_lowercase();
            let label_sim = strsim::jaro_winkler(&term_lower, &label);
            (
                (name_sim * SCORE_SCALE as f64) as u32,
                (label_sim * SCORE_SCALE as f64) as u32,
            )
        })
        .collect()
}

#[test]
fn exact_pid_term_scores_full_scale() {
    let rec = record(4242, "anything", 1);
    let score = score_record("4242", &rec, 0, 0);
    assert_eq!(score, SCORE_SCALE);
    let score_with_sims = score_record("4242", &rec, 123456, 700001);
    assert_eq!(score_with_sims, SCORE_SCALE);
}

#[test]
fn non_matching_pid_term_scores_by_similarity() {
    let rec = record(4242, "anything", 1);
    assert_eq!(score_record("17", &rec, 300000, 450000), 450000);
    assert_eq!(score_record("nothing numeric", &rec, 650000, 20000), 650000);
}

#[test]
fn low_scores_never_reach_ranked_output() {
    let procs = sample_index();
    let sims = vec![(700000, 700000), (700000, 699999), (0, 0)];
    let matches = get_best_matches("zzz", &procs, &sims);
    assert!(matches.is_empty());
}

#[test]
fn threshold_is_strict() {
    let procs = sample_index();
    let sims = vec![(700001, 0), (700000, 0), (0, 700000)];
    let matches = get_best_matches("whatever", &procs, &sims);
    assert_eq!(matches.len(), 1);
    assert_eq!(matches[0].pid, 100);
    assert_eq!(matches[0].score, 700001);
}

#[test]
fn nginx_query_ranks_exact_name_first() {
    let procs = sample_index();
    let sims = sims_for("nginx", &procs);
    let mut matches = get_best_matches("nginx", &procs, &sims);
    sort_by_score(&mut matches);
    assert_eq!(matches.len(), 2);
    assert_eq!(matches[0].pid, 205);
    assert_eq!(matches[0].score, SCORE_SCALE);
    assert_eq!(matches[1].pid, 999);
    assert!(matches[1].score > 700000);
    assert!(matches[1].score < SCORE_SCALE);
}

#[test]
fn pid_query_selects_the_record_whatever_its_name() {
    let procs = sample_index();
    let sims = sims_for("205", &procs);
    let mut matches = get_best_matches("205", &procs, &sims);
    sort_by_score(&mut matches);
    assert!(!matches.is_empty());
    assert_eq!(matches[0].pid, 205);
    assert_eq!(matches[0].score, SCORE_SCALE);
}

#[test]
fn memory_directive_overrides_score_order() {
    let procs = sample_index();
    let (term, directive) = parse_query("nginx sort:memory");
    assert_eq!(term, "nginx");
    assert_eq!(directive, SortDirective::ByMemory);
    let sims = sims_for(&term, &procs);
    let mut matches = get_best_matches(&term, &procs, &sims);
    sort_by_memory(&mut matches);
    assert_eq!(matches.len(), 2);
    assert_eq!(matches[0].pid, 205);
    assert_eq!(matches[0].memory_bytes, 4096000);
    assert_eq!(matches[1].pid, 999);
    assert_eq!(matches[1].memory_bytes, 1024000);
}

#[test]
fn memory_sort_is_non_increasing() {
    let mut matches: Vec<ScoredCandidate> = vec![
        ScoredCandidate { score: 800000, pid: 1, name: "a".to_string(), memory_bytes: 5 },
        ScoredCandidate { score: 900000, pid: 2, name: "b".to_string(), memory_bytes: 50 },
        ScoredCandidate { score: 700001, pid: 3, name: "c".to_string(), memory_bytes: 20 },
    ];
    sort_by_memory(&mut matches);
    let memories: Vec<u64> = matches.iter().map(|c| c.memory_bytes).collect();
    assert_eq!(memories, vec![50, 20, 5]);
}

#[test]
fn score_sort_is_stable_for_equal_scores() {
    let mut matches: Vec<ScoredCandidate> = vec![
        ScoredCandidate { score: 800000, pid: 1, name: "a".to_string(), memory_bytes: 5 },
        ScoredCandidate { score: 900000, pid: 2, name: "b".to_string(), memory_bytes: 50 },
        ScoredCandidate { score: 800000, pid: 3, name: "c".to_string(), memory_bytes: 20 },
    ];
    sort_by_score(&mut matches);
    let pids: Vec<i32> = matches.iter().map(|c| c.pid).collect();
    assert_eq!(pids, vec![2, 1, 3]);
}

#[test]
fn cpu_sort_orders_by_duration_and_keeps_failures() {
    let mut matches: Vec<ScoredCandidate> = vec![
        ScoredCandidate { score: 800000, pid: 1, name: "a".to_string(), memory_bytes: 5 },
        ScoredCandidate { score: 900000, pid: 2, name: "b".to_string(), memory_bytes: 50 },
        ScoredCandidate { score: 700001, pid: 3, name: "c".to_string(), memory_bytes: 20 },
    ];
    // The second candidate's lookup failed: its duration is zero, yet it
    // stays in the result.
    let cpu_times = vec![
        cpu_time_value(Some(30)),
        cpu_time_value(None),
        cpu_time_value(Some(90)),
    ];
    assert_eq!(cpu_times, vec![30, 0, 90]);
    sort_by_cpu_time(&mut matches, &cpu_times);
    let pids: Vec<i32> = matches.iter().map(|c| c.pid).collect();
    assert_eq!(pids, vec![3, 1, 2]);
    assert_eq!(matches.len(), 3);
}

#[test]
fn empty_index_gives_empty_output() {
    let procs: Vec<ProcessRecord> = Vec::new();
    let sims: Vec<(u32, u32)> = Vec::new();
    let matches = get_best_matches("anything", &procs, &sims);
    assert!(matches.is_empty());
}
