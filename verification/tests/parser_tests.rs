use nugup::dep::Dependency;
use nugup::parser::{parse_report, parse_row, project_name, ParseError};

fn dep(name: &str, requested: &str, resolved: &str, latest: &str) -> Dependency {
    Dependency {
        name: name.to_string(),
        requested: requested.to_string(),
        resolved: resolved.to_string(),
        latest: latest.to_string(),
    }
}

#[test]
fn row_parses_four_columns() {
    let d = parse_row("   > ThePackage        1.0.11        1.0.11        1.0.14").unwrap();
    assert_eq!(d, dep("ThePackage", "1.0.11", "1.0.11", "1.0.14"));
}

#[test]
fn row_strips_every_angle_bracket() {
    // a `>` inside a token is removed, not treated as a separator
    let d = parse_row("> The>Package 1.0 1.1 1.2").unwrap();
    assert_eq!(d, dep("ThePackage", "1.0", "1.1", "1.2"));
}

#[test]
fn row_with_tabs_and_doubled_brackets() {
    let d = parse_row("\t>> Foo\t1.0.0  1.0.0\t1.2.0").unwrap();
    assert_eq!(d, dep("Foo", "1.0.0", "1.0.0", "1.2.0"));
}

#[test]
fn row_splits_on_unicode_whitespace() {
    let d = parse_row("> Foo\u{00A0}1.0\u{2003}2.0\u{3000}3.0").unwrap();
    assert_eq!(d, dep("Foo", "1.0", "2.0", "3.0"));
}

#[test]
fn row_ignores_extra_columns() {
    let d = parse_row("> Foo 1 2 3 extra").unwrap();
    assert_eq!(d, dep("Foo", "1", "2", "3"));
}

#[test]
fn short_row_is_rejected() {
    assert_eq!(parse_row("> Foo 1.0 2.0"), Err(ParseError::RowTooShort));
    assert_eq!(parse_row(">"), Err(ParseError::RowTooShort));
    assert_eq!(parse_row(""), Err(ParseError::RowTooShort));
}

#[test]
fn rejoined_row_parses_to_the_same_record() {
    // the four fields, joined with single spaces, make a row that parses
    // back to the very same record
    let original = parse_row("  >>  Alpha   1.0   1.1   2.0  trailing").unwrap();
    let rejoined = format!(
        "{} {} {} {}",
        original.name, original.requested, original.resolved, original.latest
    );
    let again = parse_row(&rejoined).unwrap();
    assert_eq!(original, again);
}

#[test]
fn project_name_reads_backticks() {
    assert_eq!(
        project_name("Project `App` has the following updates to its packages"),
        Some("App".to_string())
    );
    assert_eq!(
        project_name("The given project `Quiet.Lib` has no updates given the current sources."),
        Some("Quiet.Lib".to_string())
    );
}

#[test]
fn project_name_needs_two_backticks() {
    assert_eq!(project_name("Project `App has updates"), None);
    assert_eq!(project_name("Project App has updates"), None);
}

#[test]
fn report_attributes_rows_to_latest_project() {
    let text = "Project `App` has the following updates to its packages\n\
                   > Foo   1.0.0   1.0.0   1.2.0\n\
                   > Bar   2.0.0   2.0.0   3.0.0\n\
                The given project `Lib` has no updates given the current sources.\n";
    let obs = parse_report(text).unwrap();
    assert_eq!(obs.len(), 2);
    assert_eq!(obs[0].0, "App");
    assert_eq!(obs[0].1, dep("Foo", "1.0.0", "1.0.0", "1.2.0"));
    assert_eq!(obs[1].0, "App");
    assert_eq!(obs[1].1, dep("Bar", "2.0.0", "2.0.0", "3.0.0"));
}

#[test]
fn row_before_any_project_gets_empty_name() {
    let obs = parse_report("   > Foo 1 1 2\n").unwrap();
    assert_eq!(obs.len(), 1);
    assert_eq!(obs[0].0, "");
}

#[test]
fn other_lines_are_ignored() {
    let text = "Determining projects to restore...\n\
                All projects are up-to-date for restore.\n";
    let obs = parse_report(text).unwrap();
    assert!(obs.is_empty());
}

#[test]
fn report_with_short_row_fails() {
    let text = "Project `App` has the following updates to its packages\n   > Foo 1.0\n";
    assert_eq!(parse_report(text), Err(ParseError::RowTooShort));
}

#[test]
fn report_with_bad_project_line_fails() {
    let text = "Project App has the following updates to its packages\n";
    assert_eq!(parse_report(text), Err(ParseError::UnterminatedProjectName));
}

#[test]
fn report_handles_crlf_lines() {
    let text = "Project `App` has the following updates to its packages\r\n   > Foo 1 1 2\r\n";
    let obs = parse_report(text).unwrap();
    assert_eq!(obs.len(), 1);
    assert_eq!(obs[0].0, "App");
    assert_eq!(obs[0].1, dep("Foo", "1", "1", "2"));
}
