use pkgman::configuration::ConfigurationManager;
use pkgman::dependency::{Dependency, Package, PackageList};
use pkgman::errors::SoftwareManagerError;
use pkgman::package_manager::PackageManager;
use pkgman::provider::DependencyProvider;
use pkgman::scheduler::Scheduler;
use pkgman::software::{Software, SoftwareStatus};
use pkgman::software_manager::SoftwareManager;
use pkgman::version::VersionWrapper;

fn ver(major: u64, minor: u64, patch: u64) -> VersionWrapper {
    VersionWrapper::new(major, minor, patch)
}

fn dep(name: &str, v: VersionWrapper) -> Dependency {
    Dependency::new(name.to_string(), v)
}

fn pkg(name: &str, v: VersionWrapper) -> Package {
    Package::new(
        name.to_string(),
        v,
        "main".to_string(),
        "origin".to_string(),
        "label".to_string(),
        "amd64".to_string(),
        format!("http://pkgs.test/{}", name),
        String::new(),
    )
}

fn provider_with(entries: Vec<(&str, VersionWrapper, Vec<Dependency>)>) -> DependencyProvider {
    let mut p = DependencyProvider::new();
    for (name, v, deps) in entries {
        assert!(p.insert(pkg(name, v), deps));
    }
    p
}

fn entry_index(sm: &SoftwareManager, name: &str) -> usize {
    for (i, s) in sm.softwares.iter().enumerate() {
        if s.archive == name {
            return i;
        }
    }
    panic!("entry {} not found", name);
}

fn status_of(sm: &SoftwareManager, name: &str) -> SoftwareStatus {
    sm.softwares[entry_index(sm, name)].inner.status
}

fn rc_of(sm: &SoftwareManager, name: &str) -> u32 {
    sm.softwares[entry_index(sm, name)].inner.reference_count
}

#[test]
fn end_to_end_install_reference_and_collect() {
    // want-set ["app-1.0.0"], app depends on lib-2.0.0
    let p = provider_with(vec![
        ("app", ver(1, 0, 0), vec![dep("lib", ver(2, 0, 0))]),
        ("lib", ver(2, 0, 0), vec![]),
    ]);
    let mut sm = SoftwareManager::new();
    let mut pm = PackageManager::new();
    let mut cm = ConfigurationManager::new();
    let sched = Scheduler::new();

    let order = sm.check(&vec![dep("app", ver(1, 0, 0))], &p).unwrap();
    assert_eq!(order.len(), 2);
    assert_eq!(order[0].archive, "lib");
    assert_eq!(order[1].archive, "app");

    sched
        .bootstrap(
            "boot".to_string(),
            vec![dep("app", ver(1, 0, 0))],
            &p,
            &mut sm,
            &mut pm,
            &mut cm,
        )
        .unwrap();
    assert_eq!(rc_of(&sm, "lib"), 1);
    assert_eq!(rc_of(&sm, "app"), 1);
    assert!(pm.contains(&"app".to_string(), &ver(1, 0, 0)));
    assert!(pm.contains(&"lib".to_string(), &ver(2, 0, 0)));

    // release app, collect: app goes first and cascades into lib
    let i = entry_index(&sm, "app");
    assert_eq!(sm.softwares[i].inner.descrease(), 0);
    sm.garbage_collection(&mut pm).unwrap();
    assert!(matches!(status_of(&sm, "app"), SoftwareStatus::Removed));
    assert!(matches!(status_of(&sm, "lib"), SoftwareStatus::Removed));
    assert_eq!(rc_of(&sm, "app"), 0);
    assert_eq!(rc_of(&sm, "lib"), 0);
    assert!(!pm.contains(&"app".to_string(), &ver(1, 0, 0)));
    assert!(!pm.contains(&"lib".to_string(), &ver(2, 0, 0)));
}

#[test]
fn cascading_collection_spares_a_shared_dependency() {
    // a -> b -> c, and d -> c with d still referenced
    let p = provider_with(vec![
        ("a", ver(1, 0, 0), vec![dep("b", ver(1, 0, 0))]),
        ("b", ver(1, 0, 0), vec![dep("c", ver(1, 0, 0))]),
        ("c", ver(1, 0, 0), vec![]),
        ("d", ver(1, 0, 0), vec![dep("c", ver(1, 0, 0))]),
    ]);
    let mut sm = SoftwareManager::new();
    let mut pm = PackageManager::new();
    let mut cm = ConfigurationManager::new();
    let sched = Scheduler::new();

    sched
        .bootstrap(
            "first".to_string(),
            vec![dep("a", ver(1, 0, 0))],
            &p,
            &mut sm,
            &mut pm,
            &mut cm,
        )
        .unwrap();
    sched
        .bootstrap(
            "second".to_string(),
            vec![dep("d", ver(1, 0, 0))],
            &p,
            &mut sm,
            &mut pm,
            &mut cm,
        )
        .unwrap();
    assert_eq!(rc_of(&sm, "a"), 1);
    assert_eq!(rc_of(&sm, "b"), 1);
    assert_eq!(rc_of(&sm, "c"), 2);
    assert_eq!(rc_of(&sm, "d"), 1);

    // release a; the cascade removes a and b, but c survives for d
    let i = entry_index(&sm, "a");
    sm.softwares[i].inner.descrease();
    sm.garbage_collection(&mut pm).unwrap();
    assert!(matches!(status_of(&sm, "a"), SoftwareStatus::Removed));
    assert!(matches!(status_of(&sm, "b"), SoftwareStatus::Removed));
    assert!(matches!(status_of(&sm, "c"), SoftwareStatus::Available));
    assert!(matches!(status_of(&sm, "d"), SoftwareStatus::Available));
    assert_eq!(rc_of(&sm, "c"), 1);
    assert!(pm.contains(&"c".to_string(), &ver(1, 0, 0)));
    assert!(!pm.contains(&"a".to_string(), &ver(1, 0, 0)));
    assert!(!pm.contains(&"b".to_string(), &ver(1, 0, 0)));
}

#[test]
fn garbage_collection_is_idempotent() {
    let p = provider_with(vec![
        ("a", ver(1, 0, 0), vec![dep("b", ver(1, 0, 0))]),
        ("b", ver(1, 0, 0), vec![]),
        ("orphan", ver(1, 0, 0), vec![]),
    ]);
    let mut sm = SoftwareManager::new();
    let mut pm = PackageManager::new();
    // an orphaned partial install: never referenced
    sm.install(&vec![dep("orphan", ver(1, 0, 0)), dep("a", ver(1, 0, 0))], &p, &mut pm)
        .unwrap();
    let i = entry_index(&sm, "a");
    // keep a alive
    let list = PackageList::new(vec![dep("a", ver(1, 0, 0))]);
    sm.update_reference(&list).unwrap();
    assert_eq!(rc_of(&sm, "a"), 1);
    let _ = i;

    sm.garbage_collection(&mut pm).unwrap();
    let snapshot: Vec<(String, u32, SoftwareStatus)> = sm
        .softwares
        .iter()
        .map(|s| (s.archive.clone(), s.inner.reference_count, s.inner.status))
        .collect();
    let pm_len = pm.packages.len();

    sm.garbage_collection(&mut pm).unwrap();
    let snapshot2: Vec<(String, u32, SoftwareStatus)> = sm
        .softwares
        .iter()
        .map(|s| (s.archive.clone(), s.inner.reference_count, s.inner.status))
        .collect();
    assert_eq!(snapshot, snapshot2);
    assert_eq!(pm.packages.len(), pm_len);
    assert!(matches!(status_of(&sm, "orphan"), SoftwareStatus::Removed));
    assert!(matches!(status_of(&sm, "a"), SoftwareStatus::Available));
}

#[test]
fn reference_counts_never_go_negative() {
    let mut e = Software::new(
        "x".to_string(),
        ver(1, 0, 0),
        vec![],
        0,
        SoftwareStatus::Available,
    );
    assert_eq!(e.inner.descrease(), 0);
    assert_eq!(e.inner.reference_count, 0);
    e.inner.add();
    assert_eq!(e.inner.reference_count(), 1);
    assert_eq!(e.inner.descrease(), 0);
    assert_eq!(e.inner.descrease(), 0);
}

#[test]
fn install_is_idempotent_per_entry_and_aborts_on_missing_package() {
    let p = provider_with(vec![("a", ver(1, 0, 0), vec![])]);
    let mut sm = SoftwareManager::new();
    let mut pm = PackageManager::new();
    sm.install(
        &vec![dep("a", ver(1, 0, 0)), dep("a", ver(1, 0, 0))],
        &p,
        &mut pm,
    )
    .unwrap();
    assert_eq!(sm.softwares.len(), 1);

    // the first element installs, the missing one aborts the rest
    let r = sm.install(
        &vec![dep("b", ver(1, 0, 0)), dep("a", ver(2, 0, 0))],
        &p,
        &mut pm,
    );
    match r {
        Err(SoftwareManagerError::SoftwareNotFound(d)) => assert_eq!(d.archive, "b"),
        _ => panic!("expected the unknown package to abort the install"),
    }
}

#[test]
fn update_reference_fails_on_a_missing_entry_and_keeps_prior_increments() {
    let p = provider_with(vec![("a", ver(1, 0, 0), vec![])]);
    let mut sm = SoftwareManager::new();
    let mut pm = PackageManager::new();
    sm.install(&vec![dep("a", ver(1, 0, 0))], &p, &mut pm).unwrap();
    let list = PackageList::new(vec![dep("a", ver(1, 0, 0)), dep("ghost", ver(1, 0, 0))]);
    match sm.update_reference(&list) {
        Err(SoftwareManagerError::SoftwareNotFound(d)) => assert_eq!(d.archive, "ghost"),
        _ => panic!("expected the missing entry to be reported"),
    }
    assert_eq!(rc_of(&sm, "a"), 1);
}

#[test]
fn removed_entries_are_treated_as_absent_by_resolution() {
    let p = provider_with(vec![("a", ver(1, 0, 0), vec![])]);
    let mut sm = SoftwareManager::new();
    sm.insert(Software::new(
        "a".to_string(),
        ver(1, 0, 0),
        vec![],
        0,
        SoftwareStatus::Removed,
    ))
    .unwrap();
    let order = sm.check(&vec![dep("a", ver(1, 0, 0))], &p).unwrap();
    assert_eq!(order.len(), 1);
    assert_eq!(order[0].archive, "a");
}

#[test]
fn scheduler_bootstrap_aborts_cleanly_on_a_cycle() {
    let p = provider_with(vec![
        ("a", ver(1, 0, 0), vec![dep("b", ver(1, 0, 0))]),
        ("b", ver(1, 0, 0), vec![dep("a", ver(1, 0, 0))]),
    ]);
    let mut sm = SoftwareManager::new();
    let mut pm = PackageManager::new();
    let mut cm = ConfigurationManager::new();
    let sched = Scheduler::new();
    let r = sched.bootstrap(
        "boot".to_string(),
        vec![dep("a", ver(1, 0, 0))],
        &p,
        &mut sm,
        &mut pm,
        &mut cm,
    );
    assert!(matches!(
        r,
        Err(pkgman::errors::GlobalError::CircularDependency(_))
    ));
    assert_eq!(sm.softwares.len(), 0);
    assert_eq!(pm.packages.len(), 0);
    assert_eq!(cm.configurations.len(), 0);
}
