use graphing_calculator::grep::{search, search_case_insensitive, Config};

// a test to run the search function
#[test]
fn case_sensitive() {
    let query = "duct";
    let contents = "Rust:\r\nsafe, fast, productive.\r\nPick three.\r\nDuct tape.";

    assert_eq!(vec!["safe, fast, productive."], search(query, contents));
}

// a test to run the search function case insensitively
#[test]
fn case_insensitive() {
    let query = "rUsT";
    let contents = "Rust:\r\nsafe, fast, productive.\r\nPick three.\r\nTrust me.";

    assert_eq!(
        vec!["Rust:", "Trust me."],
        search_case_insensitive(query, contents)
    );
}

#[test]
fn search_unix_line_endings() {
    let contents = "one\ntwo\nthree";
    assert_eq!(vec!["two"], search("w", contents));
    let empty: Vec<&str> = Vec::new();
    assert_eq!(empty, search("absent", contents));
}

#[test]
fn search_empty_query_keeps_all_lines() {
    let contents = "a\nb\n";
    assert_eq!(vec!["a", "b"], search("", contents));
}

#[test]
fn config_rejects_short_argument_lists() {
    let args = vec!["prog".to_string(), "only-query".to_string()];
    assert_eq!(Config::new(&args, true).err(), Some("not enough arguments"));
}

#[test]
fn config_reads_query_and_filename() {
    let args = vec![
        "prog".to_string(),
        "needle".to_string(),
        "notes.txt".to_string(),
    ];
    let config = Config::new(&args, false).unwrap();
    assert_eq!(config.query, "needle");
    assert_eq!(config.filename, "notes.txt");
    assert!(!config.case_sensitive);
}
