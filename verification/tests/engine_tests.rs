use nugup::aggregate::aggregate;
use nugup::dep::Dependency;
use nugup::engine::{update_dependency, Action, Engine, Outcome, Step, UpgradeCommand};

fn dep(name: &str, requested: &str, resolved: &str, latest: &str) -> Dependency {
    Dependency {
        name: name.to_string(),
        requested: requested.to_string(),
        resolved: resolved.to_string(),
        latest: latest.to_string(),
    }
}

fn obs(project: &str, d: &Dependency) -> (String, Dependency) {
    (
        project.to_string(),
        Dependency {
            name: d.name.clone(),
            requested: d.requested.clone(),
            resolved: d.resolved.clone(),
            latest: d.latest.clone(),
        },
    )
}

#[test]
fn input_is_trimmed_and_case_folded() {
    assert_eq!(Action::from_input("y"), Action::Confirm);
    assert_eq!(Action::from_input("yes"), Action::Confirm);
    assert_eq!(Action::from_input("  YES \n"), Action::Confirm);
    assert_eq!(Action::from_input("Y"), Action::Confirm);
    assert_eq!(Action::from_input("n"), Action::Deny);
    assert_eq!(Action::from_input("No"), Action::Deny);
    assert_eq!(Action::from_input("q"), Action::Quit);
    assert_eq!(Action::from_input("\tQuIt "), Action::Quit);
}

#[test]
fn unicode_whitespace_is_trimmed_too() {
    assert_eq!(Action::from_input("\u{00A0}y\u{3000}"), Action::Confirm);
    assert_eq!(Action::from_input("\u{2009}no\r\n"), Action::Deny);
}

#[test]
fn unrecognized_input_stays_other() {
    assert_eq!(Action::from_input(""), Action::Other);
    assert_eq!(Action::from_input("   "), Action::Other);
    assert_eq!(Action::from_input("maybe"), Action::Other);
    assert_eq!(Action::from_input("y es"), Action::Other);
    assert_eq!(Action::from_input("yess"), Action::Other);
    assert_eq!(Action::from_input("quit now"), Action::Other);
}

#[test]
fn update_dependency_emits_one_command_per_project() {
    let foo = dep("Foo", "1.0.0", "1.0.0", "1.2.0");
    let projects = vec!["App".to_string(), "Lib".to_string()];
    let cmds = update_dependency(&foo, &projects);
    assert_eq!(cmds.len(), 2);
    assert_eq!(cmds[0].project, "App");
    assert_eq!(cmds[0].dependency, "Foo");
    assert_eq!(cmds[0].version, "1.2.0");
    assert_eq!(cmds[1].project, "Lib");
    assert_eq!(cmds[1].dependency, "Foo");
    assert_eq!(cmds[1].version, "1.2.0");
}

fn drive_automatic(mut engine: Engine) -> (Vec<UpgradeCommand>, usize) {
    let mut upgrades: Vec<UpgradeCommand> = Vec::new();
    let mut restores: usize = 0;
    loop {
        match engine.step() {
            Step::Upgrade(cmds) => upgrades.extend(cmds),
            Step::Restore => restores += 1,
            Step::Done => break,
            Step::Prompt(_) => panic!("automatic mode must not prompt"),
        }
    }
    (upgrades, restores)
}

#[test]
fn automatic_mode_upgrades_each_project_then_restores_once() {
    // one aggregated dependency owned by two projects: exactly two upgrade
    // commands, then exactly one restore
    let foo = dep("Foo", "1.0.0", "1.0.0", "1.2.0");
    let m = aggregate(&vec![obs("App", &foo), obs("Lib", &foo)]);
    let engine = Engine::new(m, true);
    let (upgrades, restores) = drive_automatic(engine);
    assert_eq!(upgrades.len(), 2);
    assert_eq!(upgrades[0].project, "App");
    assert_eq!(upgrades[1].project, "Lib");
    assert!(upgrades.iter().all(|c| c.dependency == "Foo" && c.version == "1.2.0"));
    assert_eq!(restores, 1);
}

#[test]
fn empty_map_still_restores_once() {
    let m = aggregate(&Vec::new());
    let engine = Engine::new(m, true);
    let (upgrades, restores) = drive_automatic(engine);
    assert!(upgrades.is_empty());
    assert_eq!(restores, 1);
}

#[test]
fn quit_abandons_the_rest_and_skips_restore() {
    // quit at the first prompt: zero upgrade commands, zero restores, even
    // with another dependency still waiting
    let foo = dep("Foo", "1", "1", "2");
    let bar = dep("Bar", "3", "3", "4");
    let m = aggregate(&vec![obs("App", &foo), obs("Lib", &bar)]);
    let mut engine = Engine::new(m, false);
    match engine.step() {
        Step::Prompt(p) => assert_eq!(p.name, "Foo"),
        _ => panic!("expected a prompt"),
    }
    match engine.decide(Action::Quit) {
        Outcome::Halted => {}
        _ => panic!("expected the run to halt"),
    }
    match engine.step() {
        Step::Done => {}
        _ => panic!("nothing may run after quit"),
    }
    match engine.step() {
        Step::Done => {}
        _ => panic!("quit is final"),
    }
}

#[test]
fn confirm_and_deny_walk_every_dependency() {
    let foo = dep("Foo", "1", "1", "2");
    let bar = dep("Bar", "3", "3", "4");
    let m = aggregate(&vec![obs("App", &foo), obs("Lib", &bar)]);
    let mut engine = Engine::new(m, false);

    match engine.step() {
        Step::Prompt(p) => {
            assert_eq!(p.name, "Foo");
            assert_eq!(p.resolved, "1");
            assert_eq!(p.latest, "2");
            assert_eq!(p.projects, vec!["App".to_string()]);
        }
        _ => panic!("expected the first prompt"),
    }
    match engine.decide(Action::Confirm) {
        Outcome::Install(cmds) => {
            assert_eq!(cmds.len(), 1);
            assert_eq!(cmds[0].project, "App");
            assert_eq!(cmds[0].dependency, "Foo");
            assert_eq!(cmds[0].version, "2");
        }
        _ => panic!("confirm must install"),
    }

    match engine.step() {
        Step::Prompt(p) => assert_eq!(p.name, "Bar"),
        _ => panic!("expected the second prompt"),
    }
    match engine.decide(Action::Deny) {
        Outcome::Skipped => {}
        _ => panic!("deny must skip"),
    }

    match engine.step() {
        Step::Restore => {}
        _ => panic!("a completed run restores"),
    }
    match engine.step() {
        Step::Done => {}
        _ => panic!("the run must end"),
    }
}

#[test]
fn unrecognized_input_reprompts_the_same_dependency() {
    let foo = dep("Foo", "1", "1", "2");
    let m = aggregate(&vec![obs("App", &foo)]);
    let mut engine = Engine::new(m, false);
    match engine.step() {
        Step::Prompt(p) => assert_eq!(p.name, "Foo"),
        _ => panic!("expected a prompt"),
    }
    for _ in 0..3 {
        match engine.decide(Action::Other) {
            Outcome::Reprompt => {}
            _ => panic!("unrecognized input must reprompt"),
        }
        match engine.step() {
            Step::Prompt(p) => assert_eq!(p.name, "Foo"),
            _ => panic!("the same prompt must come back"),
        }
    }
}
