use nugup::aggregate::{aggregate, AggMap};
use nugup::dep::Dependency;
use nugup::filter::filter_by_prefixes;
use nugup::parser::parse_report;

fn dep(name: &str, requested: &str, resolved: &str, latest: &str) -> Dependency {
    Dependency {
        name: name.to_string(),
        requested: requested.to_string(),
        resolved: resolved.to_string(),
        latest: latest.to_string(),
    }
}

fn obs(project: &str, d: &Dependency) -> (String, Dependency) {
    (
        project.to_string(),
        Dependency {
            name: d.name.clone(),
            requested: d.requested.clone(),
            resolved: d.resolved.clone(),
            latest: d.latest.clone(),
        },
    )
}

fn projects_of(m: &AggMap, d: &Dependency) -> Option<Vec<String>> {
    for i in 0..m.len() {
        if m.dependency_at(i) == d {
            return Some(m.projects_at_index(i).clone());
        }
    }
    None
}

#[test]
fn shared_dependency_collapses_to_one_entry() {
    // two rows identical in all four fields, under different projects,
    // become one entry whose list has one project per row
    let foo = dep("Foo", "1.0.0", "1.0.0", "1.2.0");
    let rows = vec![obs("App", &foo), obs("Lib", &foo)];
    let m = aggregate(&rows);
    assert_eq!(m.len(), 1);
    assert_eq!(m.dependency_at(0), &foo);
    assert_eq!(m.projects_at_index(0), &vec!["App".to_string(), "Lib".to_string()]);
}

#[test]
fn report_scenario_two_projects_one_key() {
    let text = "Project `App` has the following updates to its packages\n\
                   > Foo   1.0.0   1.0.0   1.2.0\n\
                Project `Lib` has the following updates to its packages\n\
                   > Foo   1.0.0   1.0.0   1.2.0\n";
    let m = aggregate(&parse_report(text).unwrap());
    assert_eq!(m.len(), 1);
    assert_eq!(m.dependency_at(0), &dep("Foo", "1.0.0", "1.0.0", "1.2.0"));
    assert_eq!(m.projects_at_index(0), &vec!["App".to_string(), "Lib".to_string()]);
}

#[test]
fn differing_fields_stay_separate_entries() {
    let old_foo = dep("Foo", "1.0.0", "1.0.0", "1.2.0");
    let new_foo = dep("Foo", "1.1.0", "1.1.0", "1.2.0");
    let m = aggregate(&vec![obs("App", &old_foo), obs("Lib", &new_foo)]);
    assert_eq!(m.len(), 2);
    assert_eq!(projects_of(&m, &old_foo), Some(vec!["App".to_string()]));
    assert_eq!(projects_of(&m, &new_foo), Some(vec!["Lib".to_string()]));
}

#[test]
fn interleaving_does_not_change_project_lists() {
    // the same observations in any interleaving that keeps each
    // dependency's own order yield the same list per dependency
    let foo = dep("Foo", "1", "1", "2");
    let bar = dep("Bar", "3", "3", "4");
    let one = aggregate(&vec![
        obs("A", &foo),
        obs("B", &bar),
        obs("C", &foo),
        obs("D", &bar),
    ]);
    let two = aggregate(&vec![
        obs("B", &bar),
        obs("A", &foo),
        obs("C", &foo),
        obs("D", &bar),
    ]);
    assert_eq!(projects_of(&one, &foo), projects_of(&two, &foo));
    assert_eq!(projects_of(&one, &bar), projects_of(&two, &bar));
    assert_eq!(
        projects_of(&one, &foo),
        Some(vec!["A".to_string(), "C".to_string()])
    );
    assert_eq!(
        projects_of(&one, &bar),
        Some(vec!["B".to_string(), "D".to_string()])
    );
}

#[test]
fn repeated_project_is_kept_twice() {
    let foo = dep("Foo", "1", "1", "2");
    let m = aggregate(&vec![obs("App", &foo), obs("App", &foo)]);
    assert_eq!(m.len(), 1);
    assert_eq!(
        m.projects_at_index(0),
        &vec!["App".to_string(), "App".to_string()]
    );
}

#[test]
fn empty_prefix_set_keeps_everything() {
    let foo = dep("Foo", "1", "1", "2");
    let bar = dep("Bar", "3", "3", "4");
    let m = aggregate(&vec![obs("App", &foo), obs("App", &bar)]);
    let f = filter_by_prefixes(m, &Vec::new());
    assert_eq!(f.len(), 2);
    assert_eq!(projects_of(&f, &foo), Some(vec!["App".to_string()]));
    assert_eq!(projects_of(&f, &bar), Some(vec!["App".to_string()]));
}

#[test]
fn prefixes_keep_exactly_the_matching_names() {
    let serilog = dep("Serilog.Sinks", "1", "1", "2");
    let newtonsoft = dep("Newtonsoft.Json", "3", "3", "4");
    let serde = dep("Serde.Like", "5", "5", "6");
    let m = aggregate(&vec![
        obs("App", &serilog),
        obs("App", &newtonsoft),
        obs("Lib", &serde),
    ]);
    let prefixes = vec!["Seri".to_string(), "New".to_string()];
    let f = filter_by_prefixes(m, &prefixes);
    assert_eq!(f.len(), 2);
    assert!(projects_of(&f, &serilog).is_some());
    assert!(projects_of(&f, &newtonsoft).is_some());
    assert!(projects_of(&f, &serde).is_none());
}

#[test]
fn prefix_match_is_case_sensitive() {
    let foo = dep("Foo", "1", "1", "2");
    let m = aggregate(&vec![obs("App", &foo)]);
    let f = filter_by_prefixes(m, &vec!["foo".to_string()]);
    assert_eq!(f.len(), 0);
}
