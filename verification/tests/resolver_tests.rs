use pkgman::dependency::{Dependency, Package};
use pkgman::errors::SoftwareManagerError;
use pkgman::provider::DependencyProvider;
use pkgman::software::{Software, SoftwareStatus};
use pkgman::software_manager::SoftwareManager;
use pkgman::version::VersionWrapper;

fn ver(major: u64, minor: u64, patch: u64) -> VersionWrapper {
    VersionWrapper::new(major, minor, patch)
}

fn dep(name: &str, v: VersionWrapper) -> Dependency {
    Dependency::new(name.to_string(), v)
}

fn pkg(name: &str, v: VersionWrapper) -> Package {
    Package::new(
        name.to_string(),
        v,
        "main".to_string(),
        "origin".to_string(),
        "label".to_string(),
        "amd64".to_string(),
        format!("http://pkgs.test/{}", name),
        String::new(),
    )
}

fn provider_with(entries: Vec<(&str, VersionWrapper, Vec<Dependency>)>) -> DependencyProvider {
    let mut p = DependencyProvider::new();
    for (name, v, deps) in entries {
        assert!(p.insert(pkg(name, v), deps));
    }
    p
}

fn names_of(order: &Vec<Dependency>) -> Vec<String> {
    order.iter().map(|d| d.archive.clone()).collect()
}

#[test]
fn resolve_simple_pair_is_dependency_first() {
    let p = provider_with(vec![
        ("app", ver(1, 0, 0), vec![dep("lib", ver(2, 0, 0))]),
        ("lib", ver(2, 0, 0), vec![]),
    ]);
    let sm = SoftwareManager::new();
    let order = sm.check(&vec![dep("app", ver(1, 0, 0))], &p).unwrap();
    assert_eq!(names_of(&order), vec!["lib".to_string(), "app".to_string()]);
    assert_eq!(order[0].version_wrapper, ver(2, 0, 0));
    assert_eq!(order[1].version_wrapper, ver(1, 0, 0));
}

#[test]
fn resolve_diamond_orders_dependencies_before_dependents() {
    let p = provider_with(vec![
        (
            "app",
            ver(1, 0, 0),
            vec![dep("liba", ver(1, 0, 0)), dep("libb", ver(1, 0, 0))],
        ),
        ("liba", ver(1, 0, 0), vec![dep("base", ver(1, 0, 0))]),
        ("libb", ver(1, 0, 0), vec![dep("base", ver(1, 0, 0))]),
        ("base", ver(1, 0, 0), vec![]),
    ]);
    let sm = SoftwareManager::new();
    let order = sm.check(&vec![dep("app", ver(1, 0, 0))], &p).unwrap();
    assert_eq!(
        names_of(&order),
        vec![
            "base".to_string(),
            "liba".to_string(),
            "libb".to_string(),
            "app".to_string()
        ]
    );
}

#[test]
fn resolve_skips_already_available_packages() {
    let p = provider_with(vec![
        ("app", ver(1, 0, 0), vec![dep("lib", ver(2, 0, 0))]),
        ("lib", ver(2, 0, 0), vec![]),
    ]);
    let mut sm = SoftwareManager::new();
    sm.insert(Software::new(
        "lib".to_string(),
        ver(2, 0, 0),
        vec![],
        1,
        SoftwareStatus::Available,
    ))
    .unwrap();
    let order = sm.check(&vec![dep("app", ver(1, 0, 0))], &p).unwrap();
    assert_eq!(names_of(&order), vec!["app".to_string()]);
}

#[test]
fn resolve_reports_cycle_starting_at_repeated_node() {
    let p = provider_with(vec![
        ("a", ver(1, 0, 0), vec![dep("b", ver(1, 0, 0))]),
        ("b", ver(1, 0, 0), vec![dep("c", ver(1, 0, 0))]),
        ("c", ver(1, 0, 0), vec![dep("a", ver(1, 0, 0))]),
    ]);
    let sm = SoftwareManager::new();
    let r = sm.check(&vec![dep("a", ver(1, 0, 0))], &p);
    match r {
        Err(SoftwareManagerError::CircularDependency(cycle)) => {
            assert_eq!(
                names_of(&cycle),
                vec!["a".to_string(), "b".to_string(), "c".to_string()]
            );
        }
        _ => panic!("expected a circular dependency"),
    }
}

#[test]
fn resolve_fails_when_information_source_lacks_a_package() {
    let p = provider_with(vec![(
        "app",
        ver(1, 0, 0),
        vec![dep("ghost", ver(1, 0, 0))],
    )]);
    let sm = SoftwareManager::new();
    let r = sm.check(&vec![dep("app", ver(1, 0, 0))], &p);
    match r {
        Err(SoftwareManagerError::SoftwareNotFound(d)) => {
            assert_eq!(d.archive, "ghost");
        }
        _ => panic!("expected the missing package to be reported"),
    }
}

#[test]
fn resolve_shares_the_accumulator_across_roots() {
    let p = provider_with(vec![
        ("x", ver(1, 0, 0), vec![dep("base", ver(1, 0, 0))]),
        ("y", ver(1, 0, 0), vec![dep("base", ver(1, 0, 0))]),
        ("base", ver(1, 0, 0), vec![]),
    ]);
    let sm = SoftwareManager::new();
    let order = sm
        .check(
            &vec![dep("x", ver(1, 0, 0)), dep("y", ver(1, 0, 0))],
            &p,
        )
        .unwrap();
    assert_eq!(
        names_of(&order),
        vec!["base".to_string(), "x".to_string(), "y".to_string()]
    );
}

#[test]
fn latest_version_picks_the_maximum() {
    let p = provider_with(vec![
        ("foo", ver(1, 0, 0), vec![]),
        ("foo", ver(2, 1, 0), vec![]),
        ("foo", ver(2, 0, 9), vec![]),
    ]);
    assert_eq!(p.latest_version(&"foo".to_string()), Some(ver(2, 1, 0)));
    assert_eq!(p.latest_version(&"bar".to_string()), None);
}

#[test]
fn get_dep_returns_the_declared_dependency_list() {
    let p = provider_with(vec![
        ("app", ver(1, 0, 0), vec![dep("lib", ver(2, 0, 0))]),
        ("lib", ver(2, 0, 0), vec![]),
    ]);
    let deps = SoftwareManager::get_dep(&p, &dep("app", ver(1, 0, 0))).unwrap();
    assert_eq!(names_of(&deps), vec!["lib".to_string()]);
    match SoftwareManager::get_dep(&p, &dep("nope", ver(1, 0, 0))) {
        Err(SoftwareManagerError::SoftwareNotFound(d)) => assert_eq!(d.archive, "nope"),
        _ => panic!("expected a missing package"),
    }
}
