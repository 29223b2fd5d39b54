use superdiff::cli::{Cli, ReportingMode};

#[test]
fn it_could_probably_check_stdin() {
    let args = Cli {
        lev_threshold: 0,
        line_threshold: 1,
        block_threshold: 20,
        verbose: true,
        worker_threads: 1,
        files: vec![],
        reporting_mode: ReportingMode::Json,
    };

    assert!(args.files_from_stdin());
    assert_eq!(args.files.len(), 0);
}

#[test]
fn a_given_file_list_is_not_read_from_stdin() {
    let args = Cli {
        lev_threshold: 0,
        line_threshold: 1,
        block_threshold: 10,
        verbose: false,
        worker_threads: 1,
        files: vec!["one.txt".to_string()],
        reporting_mode: ReportingMode::Text,
    };
    assert!(!args.files_from_stdin());
}

#[test]
fn reporting_mode_defaults_to_text() {
    assert_eq!(ReportingMode::default(), ReportingMode::Text);
}
