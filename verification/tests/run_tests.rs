use nugup::dep::Dependency;
use nugup::parser::ParseError;
use nugup::run::{get_outdated_dependencies, stringify_bytes, RunError};

fn dep(name: &str, requested: &str, resolved: &str, latest: &str) -> Dependency {
    Dependency {
        name: name.to_string(),
        requested: requested.to_string(),
        resolved: resolved.to_string(),
        latest: latest.to_string(),
    }
}

#[test]
fn failed_listing_aborts_with_the_tool_exit_code() {
    // listing exits with code 2: the run fails with 2 before any upgrade
    // or restore could be issued
    match get_outdated_dependencies(2, "ignored") {
        Err(RunError::ListingFailed(code)) => assert_eq!(code, 2),
        _ => panic!("a failed listing must abort the run"),
    }
}

#[test]
fn failed_listing_wins_over_report_content() {
    let good = "Project `App` has the following updates to its packages\n   > Foo 1 1 2\n";
    assert_eq!(
        get_outdated_dependencies(1, good).unwrap_err(),
        RunError::ListingFailed(1)
    );
}

#[test]
fn successful_listing_builds_the_map() {
    let text = "Project `App` has the following updates to its packages\n\
                   > Foo   1.0.0   1.0.0   1.2.0\n\
                Project `Lib` has the following updates to its packages\n\
                   > Foo   1.0.0   1.0.0   1.2.0\n";
    let m = get_outdated_dependencies(0, text).unwrap();
    assert_eq!(m.len(), 1);
    assert_eq!(m.dependency_at(0), &dep("Foo", "1.0.0", "1.0.0", "1.2.0"));
    assert_eq!(
        m.projects_at_index(0),
        &vec!["App".to_string(), "Lib".to_string()]
    );
}

#[test]
fn malformed_report_aborts_the_run() {
    let text = "Project `App` has the following updates to its packages\n   > Foo 1.0\n";
    assert_eq!(
        get_outdated_dependencies(0, text).unwrap_err(),
        RunError::Malformed(ParseError::RowTooShort)
    );
}

#[test]
fn empty_report_gives_an_empty_map() {
    let m = get_outdated_dependencies(0, "").unwrap();
    assert_eq!(m.len(), 0);
}

#[test]
fn output_bytes_become_their_text() {
    let bytes: Vec<u8> = b"Project `App`\n".to_vec();
    assert_eq!(stringify_bytes(&bytes), "Project `App`\n");
    let empty: Vec<u8> = Vec::new();
    assert_eq!(stringify_bytes(&empty), "");
}
